//! What goes out on the serial line: text with each line feed preceded by a
//! carriage return, and 64-bit values as `0x` followed by sixteen lower-case
//! hex digits.
use vstd::prelude::*;

verus! {

/// The bytes sent for `text`: each `\n` becomes `\r\n`, every other byte
/// is sent as it is.
pub open spec fn serial_form(text: Seq<u8>) -> Seq<u8>
    decreases text.len(),
{
    if text.len() == 0 {
        Seq::empty()
    } else {
        let c = text.last();
        serial_form(text.drop_last()) + if c == 10u8 {
            seq![13u8, 10u8]
        } else {
            seq![c]
        }
    }
}

/// The lower-case hex digit for `d`, which is below 16.
pub open spec fn hex_char(d: int) -> u8 {
    if d < 10 {
        (48 + d) as u8
    } else {
        (97 + d - 10) as u8
    }
}

/// The last `n` hex digits of `v`, most significant first.
pub open spec fn hex_digits(v: nat, n: nat) -> Seq<u8>
    decreases n,
{
    if n == 0 {
        Seq::empty()
    } else {
        hex_digits(v / 16, (n - 1) as nat).push(hex_char((v % 16) as int))
    }
}

/// `0x` followed by the sixteen hex digits of `v`.
pub open spec fn hex64_form(v: u64) -> Seq<u8> {
    seq![48u8, 120u8] + hex_digits(v as nat, 16)
}

/// The bytes to send for `text` on the serial line.
pub fn to_serial(text: &[u8]) -> (out: Vec<u8>)
    ensures
        out@ == serial_form(text@),
{
    let mut out: Vec<u8> = Vec::new();
    let mut i: usize = 0;
    while i < text.len()
        invariant
            i <= text@.len(),
            out@ == serial_form(text@.subrange(0, i as int)),
        decreases text@.len() - i,
    {
        let c = text[i];
        if c == 10u8 {
            out.push(13u8);
        }
        out.push(c);
        proof {
            let s = text@.subrange(0, i + 1);
            assert(s.drop_last() =~= text@.subrange(0, i as int));
            assert(s.last() == c);
        }
        i = i + 1;
    }
    proof {
        assert(text@.subrange(0, text@.len() as int) =~= text@);
    }
    out
}

/// The lower-case hex digit for `d`.
pub fn hex_digit(d: u64) -> (c: u8)
    requires
        d < 16,
    ensures
        c == hex_char(d as int),
{
    let n = d as u8;
    if n < 10 {
        48u8 + n
    } else {
        97u8 + (n - 10)
    }
}

/// `0x` followed by the sixteen hex digits of `v`, as the kernel prints a
/// 64-bit value.
pub fn format_hex64(v: u64) -> (out: [u8; 18])
    ensures
        out@ == hex64_form(v),
{
    let mut out = [0u8; 18];
    out[0] = 48u8;
    out[1] = 120u8;
    let mut w: u64 = v;
    let mut j: usize = 0;
    while j < 16
        invariant
            j <= 16,
            out@.len() == 18,
            out@[0] == 48u8,
            out@[1] == 120u8,
            hex_digits(v as nat, 16) == hex_digits(w as nat, (16 - j) as nat) + out@.subrange(
                18 - j,
                18,
            ),
        decreases 16 - j,
    {
        let ghost before = out@;
        let d = hex_digit(w % 16);
        out[17 - j] = d;
        proof {
            assert(out@.subrange(17 - j, 18) =~= seq![d] + before.subrange(18 - j, 18));
            assert(hex_digits(w as nat, (16 - j) as nat) == hex_digits((w / 16) as nat, (15 - j) as nat).push(d));
            assert(hex_digits(w as nat, (16 - j) as nat) + before.subrange(18 - j, 18)
                =~= hex_digits((w / 16) as nat, (15 - j) as nat) + out@.subrange(17 - j, 18));
        }
        w = w / 16;
        j = j + 1;
    }
    proof {
        assert(hex_digits(w as nat, 0) =~= Seq::<u8>::empty());
        assert(out@ =~= hex64_form(v));
    }
    out
}

/// The bytes sent for the single byte `c`: the first `n` of the pair.
pub fn serial_bytes(c: u8) -> (out: ([u8; 2], usize))
    ensures
        out.1 <= 2,
        out.0@.subrange(0, out.1 as int) == serial_form(seq![c]),
{
    proof {
        reveal_with_fuel(serial_form, 2);
        assert(seq![c].drop_last() =~= Seq::<u8>::empty());
        assert(serial_form(Seq::<u8>::empty()) =~= Seq::<u8>::empty());
        assert(seq![c].last() == c);
    }
    if c == 10u8 {
        let out = ([13u8, 10u8], 2usize);
        proof {
            assert(serial_form(seq![c]) =~= seq![13u8, 10u8]);
            assert(out.0@.subrange(0, 2) =~= seq![13u8, 10u8]);
        }
        out
    } else {
        let out = ([c, 0u8], 1usize);
        proof {
            assert(serial_form(seq![c]) =~= seq![c]);
            assert(out.0@.subrange(0, 1) =~= seq![c]);
        }
        out
    }
}

/// `n` digits are written.
pub proof fn lemma_hex_digits_len(v: nat, n: nat)
    ensures
        hex_digits(v, n).len() == n,
    decreases n,
{
    if n > 0 {
        lemma_hex_digits_len(v / 16, (n - 1) as nat);
    }
}

/// The digit character for an exception level: `0` to `3`.
pub fn level_digit(el: u64) -> (c: u8)
    requires
        el < 10,
    ensures
        c == 48 + el,
{
    48u8 + el as u8
}

/// The serial form of one byte: a line feed goes out as carriage return
/// and line feed, every other byte goes out as it is.
pub proof fn lemma_serial_form_byte(c: u8)
    ensures
        c == 10 ==> serial_form(seq![c]) == seq![13u8, 10u8],
        c != 10 ==> serial_form(seq![c]) == seq![c],
{
    reveal_with_fuel(serial_form, 2);
    assert(seq![c].drop_last() =~= Seq::<u8>::empty());
    assert(serial_form(seq![c]) =~= (if c == 10 { seq![13u8, 10u8] } else { seq![c] }));
}

/// Text is sent piece by piece: the serial form of two texts one after the
/// other is the serial form of the first followed by that of the second.
pub proof fn lemma_serial_form_concat(a: Seq<u8>, b: Seq<u8>)
    ensures
        serial_form(a + b) == serial_form(a) + serial_form(b),
    decreases b.len(),
{
    if b.len() == 0 {
        assert(a + b =~= a);
        assert(serial_form(a) + serial_form(b) =~= serial_form(a));
    } else {
        lemma_serial_form_concat(a, b.drop_last());
        assert((a + b).drop_last() =~= a + b.drop_last());
        assert((a + b).last() == b.last());
    }
}

/// Text without a line feed goes out unchanged, byte for byte.
pub proof fn lemma_serial_form_without_line_feed(t: Seq<u8>)
    requires
        !t.contains(10u8),
    ensures
        serial_form(t) == t,
    decreases t.len(),
{
    if t.len() > 0 {
        assert(!t.drop_last().contains(10u8)) by {
            if t.drop_last().contains(10u8) {
                let i = choose|i: int| 0 <= i < t.drop_last().len() && t.drop_last()[i] == 10u8;
                assert(t[i] == 10u8);
            }
        }
        lemma_serial_form_without_line_feed(t.drop_last());
        assert(t.last() != 10u8) by {
            assert(t[t.len() - 1] == t.last());
        }
        assert(t.drop_last() + seq![t.last()] =~= t);
    }
}

/// The printed form of a value is `0x` and sixteen characters, each a
/// digit `0`-`9` or a lower-case letter `a`-`f`.
pub proof fn lemma_hex64_form_shape(v: u64)
    ensures
        hex64_form(v).len() == 18,
        hex64_form(v)[0] == 48u8,
        hex64_form(v)[1] == 120u8,
        forall|j: int|
            2 <= j < 18 ==> (48 <= #[trigger] hex64_form(v)[j] <= 57 || 97 <= hex64_form(v)[j] <= 102),
{
    lemma_hex_digits_len(v as nat, 16);
    lemma_hex_digits_chars(v as nat, 16);
    assert forall|j: int| 2 <= j < 18 implies (48 <= #[trigger] hex64_form(v)[j] <= 57 || 97
        <= hex64_form(v)[j] <= 102) by {
        assert(hex64_form(v)[j] == hex_digits(v as nat, 16)[j - 2]);
    }
}

proof fn lemma_hex_digits_chars(v: nat, n: nat)
    ensures
        forall|j: int|
            0 <= j < hex_digits(v, n).len() ==> (48 <= #[trigger] hex_digits(v, n)[j] <= 57 || 97
                <= hex_digits(v, n)[j] <= 102),
    decreases n,
{
    if n > 0 {
        lemma_hex_digits_chars(v / 16, (n - 1) as nat);
        let d = hex_digits(v, n);
        let pre = hex_digits(v / 16, (n - 1) as nat);
        assert forall|j: int| 0 <= j < d.len() implies (48 <= #[trigger] d[j] <= 57 || 97 <= d[j]
            <= 102) by {
            if j < pre.len() {
                assert(d[j] == pre[j]);
            } else {
                assert(d[j] == hex_char((v % 16) as int));
            }
        }
    }
}

} // verus!

//! The interactive monitor: hex numbers, splitting a line into words, the
//! commands it understands, and the line editor that turns received bytes
//! into echo, erase and submitted lines.
use vstd::prelude::*;

verus! {

/// The byte separates words: ASCII white space, that is space, tab, line
/// feed, form feed or carriage return.
pub open spec fn is_blank(c: u8) -> bool {
    c == 32 || c == 9 || c == 10 || c == 12 || c == 13
}

/// Whether the byte separates words.
pub fn is_blank_byte(c: u8) -> (r: bool)
    ensures
        r == is_blank(c),
{
    c == 32u8 || c == 9u8 || c == 10u8 || c == 12u8 || c == 13u8
}

/// Size of the line buffer; a line holds at most one byte less.
pub const LINE_CAPACITY: usize = 128;

/// 2^64, the modulus of `u64` arithmetic.
pub open spec fn modulus64() -> nat {
    0x1_0000_0000_0000_0000
}

/// The value of a hex digit character, upper or lower case.
pub open spec fn hex_digit_value(c: u8) -> Option<int> {
    if 48 <= c <= 57 {
        Some(c - 48)
    } else if 97 <= c <= 102 {
        Some(c - 97 + 10)
    } else if 65 <= c <= 70 {
        Some(c - 65 + 10)
    } else {
        None
    }
}

/// Every byte of `s` is a hex digit.
pub open spec fn all_hex(s: Seq<u8>) -> bool {
    forall|i: int| 0 <= i < s.len() ==> (#[trigger] hex_digit_value(s[i])) is Some
}

/// The number that the hex digits `s` denote, most significant first.
pub open spec fn hex_value(s: Seq<u8>) -> nat
    decreases s.len(),
{
    if s.len() == 0 {
        0
    } else {
        (hex_value(s.drop_last()) * 16 + hex_digit_value(s.last())->0) as nat
    }
}

/// `s` without a leading `0x` or `0X`.
pub open spec fn strip_hex_prefix(s: Seq<u8>) -> Seq<u8> {
    if s.len() >= 2 && s[0] == 48 && (s[1] == 120 || s[1] == 88) {
        s.subrange(2, s.len() as int)
    } else {
        s
    }
}

/// A hex number with an optional `0x`/`0X` prefix: `None` when no digit
/// follows the prefix or a byte is not a hex digit, else the value modulo
/// 2^64.
pub open spec fn hex_number(s: Seq<u8>) -> Option<u64> {
    let d = strip_hex_prefix(s);
    if d.len() == 0 || !all_hex(d) {
        None
    } else {
        Some((hex_value(d) % modulus64()) as u64)
    }
}

proof fn lemma_hex_step(hv: nat, val: u64, d: u64)
    requires
        val == hv % modulus64(),
        d < 16,
    ensures
        vstd::wrapping::u64_specs::wrapping_add(vstd::wrapping::u64_specs::wrapping_mul(val, 16), d)
            == (hv * 16 + d) as nat % modulus64(),
{
    let m = modulus64() as int;
    let prod = vstd::wrapping::u64_specs::wrapping_mul(val, 16);
    assert(prod == (val * 16) % m);
    vstd::arithmetic::div_mod::lemma_mul_mod_noop_left(hv as int, 16, m);
    assert(prod == (hv * 16) as int % m);
    vstd::arithmetic::div_mod::lemma_add_mod_noop((hv * 16) as int, d as int, m);
    vstd::arithmetic::div_mod::lemma_small_mod(d as nat, modulus64());
    vstd::arithmetic::div_mod::lemma_mod_pos_bound((hv * 16) as int, m);
    vstd::arithmetic::div_mod::lemma_mod_pos_bound((hv * 16 + d) as int, m);
    if prod + d >= m {
        vstd::arithmetic::div_mod::lemma_mod_add_multiples_vanish(prod + d - m, m);
        vstd::arithmetic::div_mod::lemma_small_mod((prod + d - m) as nat, modulus64());
    } else {
        vstd::arithmetic::div_mod::lemma_small_mod((prod + d) as nat, modulus64());
    }
}

/// Parses a hex number such as `40100000` or `0x40100000`; a value with
/// more than sixteen digits keeps its low 64 bits.
pub fn parse_hex(s: &[u8]) -> (r: Option<u64>)
    ensures
        r == hex_number(s@),
{
    let mut start: usize = 0;
    if s.len() >= 2 && s[0] == 48u8 && (s[1] == 120u8 || s[1] == 88u8) {
        start = 2;
    }
    let ghost d = strip_hex_prefix(s@);
    assert(d =~= s@.subrange(start as int, s@.len() as int));
    if start >= s.len() {
        return None;
    }
    let mut val: u64 = 0;
    let mut i: usize = start;
    while i < s.len()
        invariant
            start <= i <= s@.len(),
            d == s@.subrange(start as int, s@.len() as int),
            d == strip_hex_prefix(s@),
            all_hex(d.subrange(0, i - start)),
            val == hex_value(d.subrange(0, i - start)) % modulus64(),
        decreases s@.len() - i,
    {
        let c = s[i];
        let digit: u8 = if 48u8 <= c && c <= 57u8 {
            c - 48
        } else if 97u8 <= c && c <= 102u8 {
            c - 97 + 10
        } else if 65u8 <= c && c <= 70u8 {
            c - 65 + 10
        } else {
            assert(d[i - start] == c);
            assert(hex_digit_value(d[i - start]) is None);
            assert(!all_hex(d));
            return None;
        };
        proof {
            let pre = d.subrange(0, i - start);
            let next = d.subrange(0, i + 1 - start);
            assert(next.drop_last() =~= pre);
            assert(next.last() == c);
            lemma_hex_step(hex_value(pre), val, digit as u64);
            assert forall|j: int| 0 <= j < next.len() implies (#[trigger] hex_digit_value(next[j])) is Some by {
                if j < pre.len() {
                    assert(next[j] == pre[j]);
                    assert(hex_digit_value(pre[j]) is Some);
                }
            }
        }
        val = val.wrapping_mul(16).wrapping_add(digit as u64);
        i = i + 1;
    }
    assert(d.subrange(0, i - start) =~= d);
    Some(val)
}


/// The first index at or after `i` that does not hold a blank.
pub open spec fn skip_blanks(s: Seq<u8>, i: int) -> int
    decreases s.len() - i,
{
    if 0 <= i < s.len() && is_blank(s[i]) {
        skip_blanks(s, i + 1)
    } else {
        i
    }
}

/// The first index at or after `i` that holds a blank, or the length.
pub open spec fn word_end(s: Seq<u8>, i: int) -> int
    decreases s.len() - i,
{
    if 0 <= i < s.len() && !is_blank(s[i]) {
        word_end(s, i + 1)
    } else {
        i
    }
}

/// The first `n` whitespace-separated words of `s` from index `i` on.
pub open spec fn words_from(s: Seq<u8>, i: int, n: nat) -> Seq<Seq<u8>>
    decreases n,
{
    if n == 0 {
        Seq::empty()
    } else {
        let st = skip_blanks(s, i);
        if st >= s.len() {
            Seq::empty()
        } else {
            let e = word_end(s, st);
            seq![s.subrange(st, e)] + words_from(s, e, (n - 1) as nat)
        }
    }
}

/// The first three whitespace-separated words of a line.
pub open spec fn first_words(s: Seq<u8>) -> Seq<Seq<u8>> {
    words_from(s, 0, 3)
}

proof fn lemma_skip_blanks_bounds(s: Seq<u8>, i: int)
    requires
        0 <= i,
    ensures
        i <= skip_blanks(s, i),
        i <= s.len() ==> skip_blanks(s, i) <= s.len(),
        skip_blanks(s, i) < s.len() ==> !is_blank(s[skip_blanks(s, i)]),
        forall|j: int| i <= j < skip_blanks(s, i) ==> is_blank(s[j]),
    decreases s.len() - i,
{
    if 0 <= i < s.len() && is_blank(s[i]) {
        lemma_skip_blanks_bounds(s, i + 1);
    }
}

proof fn lemma_word_end_bounds(s: Seq<u8>, i: int)
    requires
        0 <= i,
    ensures
        i <= word_end(s, i),
        i <= s.len() ==> word_end(s, i) <= s.len(),
        word_end(s, i) < s.len() ==> is_blank(s[word_end(s, i)]),
        forall|j: int| i <= j < word_end(s, i) ==> !is_blank(s[j]),
    decreases s.len() - i,
{
    if 0 <= i < s.len() && !is_blank(s[i]) {
        lemma_word_end_bounds(s, i + 1);
    }
}

/// The contents of each vector of bytes.
pub open spec fn byte_views(v: Seq<Vec<u8>>) -> Seq<Seq<u8>> {
    v.map_values(|t: Vec<u8>| t@)
}

/// A copy of `s[start..end]`.
fn copy_range(s: &[u8], start: usize, end: usize) -> (out: Vec<u8>)
    requires
        start <= end <= s@.len(),
    ensures
        out@ == s@.subrange(start as int, end as int),
{
    let mut out: Vec<u8> = Vec::new();
    let mut i = start;
    while i < end
        invariant
            start <= i <= end <= s@.len(),
            out@ == s@.subrange(start as int, i as int),
        decreases end - i,
    {
        out.push(s[i]);
        proof {
            assert(out@ =~= s@.subrange(start as int, i + 1));
        }
        i = i + 1;
    }
    out
}

/// Splits a line into its first three whitespace-separated words.
pub fn tokenize(line: &[u8]) -> (toks: Vec<Vec<u8>>)
    ensures
        byte_views(toks@) == first_words(line@),
{
    let mut toks: Vec<Vec<u8>> = Vec::new();
    let mut i: usize = 0;
    while i < line.len() && toks.len() < 3
        invariant
            i <= line@.len(),
            toks@.len() <= 3,
            byte_views(toks@) + words_from(line@, i as int, (3 - toks@.len()) as nat) == first_words(
                line@,
            ),
        decreases line@.len() - i,
    {
        let ghost i0 = i as int;
        let ghost k = (3 - toks@.len()) as nat;
        proof {
            lemma_skip_blanks_bounds(line@, i0);
        }
        while i < line.len() && is_blank_byte(line[i])
            invariant
                i0 <= i <= line@.len(),
                skip_blanks(line@, i as int) == skip_blanks(line@, i0),
            decreases line@.len() - i,
        {
            i = i + 1;
        }
        let start = i;
        assert(start == skip_blanks(line@, i0));
        proof {
            lemma_word_end_bounds(line@, start as int);
        }
        while i < line.len() && !is_blank_byte(line[i])
            invariant
                start <= i <= line@.len(),
                word_end(line@, i as int) == word_end(line@, start as int),
            decreases line@.len() - i,
        {
            i = i + 1;
        }
        if i > start {
            let ghost before = byte_views(toks@);
            let w = copy_range(line, start, i);
            toks.push(w);
            proof {
                assert(byte_views(toks@) =~= before.push(line@.subrange(start as int, i as int)));
                assert(words_from(line@, i0, k) == seq![line@.subrange(start as int, i as int)]
                    + words_from(line@, i as int, (k - 1) as nat));
                assert(byte_views(toks@) + words_from(line@, i as int, (k - 1) as nat)
                    =~= before + words_from(line@, i0, k));
            }
        } else {
            assert(words_from(line@, i0, k) =~= Seq::<Seq<u8>>::empty());
            assert(words_from(line@, i as int, k) =~= Seq::<Seq<u8>>::empty());
        }
    }
    proof {
        let k = (3 - toks@.len()) as nat;
        if k > 0 {
            lemma_skip_blanks_bounds(line@, i as int);
            assert(words_from(line@, i as int, k) =~= Seq::<Seq<u8>>::empty());
        }
        assert(byte_views(toks@) + words_from(line@, i as int, k) =~= byte_views(toks@));
    }
    toks
}


/// A monitor command.
#[derive(Debug, PartialEq, Eq)]
pub enum Command {
    /// `help`: list the commands.
    Help,
    /// `el`: show the current exception level.
    ShowLevel,
    /// `regs`: dump a few system registers.
    Regs,
    /// `mem`: show the memory map.
    Mem,
    /// `peek <hex>`: read 32 bits; `None` when the address does not parse.
    Peek(Option<u64>),
    /// `poke <hex> <hex>`: write 32 bits; `None` unless both numbers parse.
    Poke(Option<(u64, u64)>),
    /// `fault`: trigger a data abort.
    Fault,
    /// `poweroff` or `halt`.
    PowerOff,
    /// `reboot`.
    Reboot,
    /// Any other first word.
    Unknown(Vec<u8>),
}

/// A monitor command, with the unknown word as a sequence.
pub enum CommandView {
    Help,
    ShowLevel,
    Regs,
    Mem,
    Peek(Option<u64>),
    Poke(Option<(u64, u64)>),
    Fault,
    PowerOff,
    Reboot,
    Unknown(Seq<u8>),
}

impl View for Command {
    type V = CommandView;

    open spec fn view(&self) -> CommandView {
        match self {
            Command::Help => CommandView::Help,
            Command::ShowLevel => CommandView::ShowLevel,
            Command::Regs => CommandView::Regs,
            Command::Mem => CommandView::Mem,
            Command::Peek(a) => CommandView::Peek(*a),
            Command::Poke(p) => CommandView::Poke(*p),
            Command::Fault => CommandView::Fault,
            Command::PowerOff => CommandView::PowerOff,
            Command::Reboot => CommandView::Reboot,
            Command::Unknown(w) => CommandView::Unknown(w@),
        }
    }
}

/// The view of an optional command.
pub open spec fn opt_command_view(c: Option<Command>) -> Option<CommandView> {
    match c {
        Some(c) => Some(c@),
        None => None,
    }
}

/// `help`
pub open spec fn word_help() -> Seq<u8> {
    seq![104u8, 101u8, 108u8, 112u8]
}

/// `el`
pub open spec fn word_el() -> Seq<u8> {
    seq![101u8, 108u8]
}

/// `regs`
pub open spec fn word_regs() -> Seq<u8> {
    seq![114u8, 101u8, 103u8, 115u8]
}

/// `mem`
pub open spec fn word_mem() -> Seq<u8> {
    seq![109u8, 101u8, 109u8]
}

/// `peek`
pub open spec fn word_peek() -> Seq<u8> {
    seq![112u8, 101u8, 101u8, 107u8]
}

/// `poke`
pub open spec fn word_poke() -> Seq<u8> {
    seq![112u8, 111u8, 107u8, 101u8]
}

/// `fault`
pub open spec fn word_fault() -> Seq<u8> {
    seq![102u8, 97u8, 117u8, 108u8, 116u8]
}

/// `poweroff`
pub open spec fn word_poweroff() -> Seq<u8> {
    seq![112u8, 111u8, 119u8, 101u8, 114u8, 111u8, 102u8, 102u8]
}

/// `halt`
pub open spec fn word_halt() -> Seq<u8> {
    seq![104u8, 97u8, 108u8, 116u8]
}

/// `reboot`
pub open spec fn word_reboot() -> Seq<u8> {
    seq![114u8, 101u8, 98u8, 111u8, 111u8, 116u8]
}

/// The `k`-th word, or the empty word when there are fewer.
pub open spec fn word_at(words: Seq<Seq<u8>>, k: int) -> Seq<u8> {
    if 0 <= k < words.len() {
        words[k]
    } else {
        Seq::empty()
    }
}

/// The command that a line holds, by its first three words; `None` for a
/// line without words.
pub open spec fn command_for(words: Seq<Seq<u8>>) -> Option<CommandView> {
    if words.len() == 0 {
        None
    } else {
        let w = words[0];
        Some(
            if w == word_help() {
                CommandView::Help
            } else if w == word_el() {
                CommandView::ShowLevel
            } else if w == word_regs() {
                CommandView::Regs
            } else if w == word_mem() {
                CommandView::Mem
            } else if w == word_peek() {
                CommandView::Peek(hex_number(word_at(words, 1)))
            } else if w == word_poke() {
                CommandView::Poke(
                    match (hex_number(word_at(words, 1)), hex_number(word_at(words, 2))) {
                        (Some(a), Some(v)) => Some((a, v)),
                        _ => None,
                    },
                )
            } else if w == word_fault() {
                CommandView::Fault
            } else if w == word_poweroff() || w == word_halt() {
                CommandView::PowerOff
            } else if w == word_reboot() {
                CommandView::Reboot
            } else {
                CommandView::Unknown(w)
            },
        )
    }
}

/// Whether `t` holds exactly the bytes of `k`.
fn same_bytes(t: &Vec<u8>, k: Vec<u8>) -> (r: bool)
    ensures
        r == (t@ == k@),
{
    if t.len() != k.len() {
        return false;
    }
    let mut i: usize = 0;
    while i < t.len()
        invariant
            i <= t@.len() == k@.len(),
            forall|j: int| 0 <= j < i ==> t@[j] == k@[j],
        decreases t@.len() - i,
    {
        if t[i] != k[i] {
            return false;
        }
        i = i + 1;
    }
    assert(t@ =~= k@);
    true
}

/// The word at `k`, parsed as a hex number.
fn hex_word(toks: &Vec<Vec<u8>>, k: usize) -> (r: Option<u64>)
    ensures
        r == hex_number(word_at(byte_views(toks@), k as int)),
{
    if k < toks.len() {
        parse_hex(toks[k].as_slice())
    } else {
        proof {
            assert(strip_hex_prefix(Seq::<u8>::empty()) =~= Seq::<u8>::empty());
        }
        None
    }
}

/// The command on a submitted line; `None` when the line has no words.
pub fn parse_command(line: &[u8]) -> (c: Option<Command>)
    ensures
        opt_command_view(c) == command_for(first_words(line@)),
{
    let toks = tokenize(line);
    if toks.len() == 0 {
        return None;
    }
    let w = &toks[0];
    let cmd = if same_bytes(w, vec![104u8, 101u8, 108u8, 112u8]) {
        Command::Help
    } else if same_bytes(w, vec![101u8, 108u8]) {
        Command::ShowLevel
    } else if same_bytes(w, vec![114u8, 101u8, 103u8, 115u8]) {
        Command::Regs
    } else if same_bytes(w, vec![109u8, 101u8, 109u8]) {
        Command::Mem
    } else if same_bytes(w, vec![112u8, 101u8, 101u8, 107u8]) {
        Command::Peek(hex_word(&toks, 1))
    } else if same_bytes(w, vec![112u8, 111u8, 107u8, 101u8]) {
        let a = hex_word(&toks, 1);
        let v = hex_word(&toks, 2);
        Command::Poke(
            match (a, v) {
                (Some(a), Some(v)) => Some((a, v)),
                _ => None,
            },
        )
    } else if same_bytes(w, vec![102u8, 97u8, 117u8, 108u8, 116u8]) {
        Command::Fault
    } else if same_bytes(w, vec![112u8, 111u8, 119u8, 101u8, 114u8, 111u8, 102u8, 102u8])
        || same_bytes(w, vec![104u8, 97u8, 108u8, 116u8]) {
        Command::PowerOff
    } else if same_bytes(w, vec![114u8, 101u8, 98u8, 111u8, 111u8, 116u8]) {
        Command::Reboot
    } else {
        Command::Unknown(copy_range(w.as_slice(), 0, w.len()))
    };
    proof {
        assert(w@ == byte_views(toks@)[0]);
        assert(w@.subrange(0, w@.len() as int) =~= w@);
    }
    Some(cmd)
}


/// What the monitor does for one received byte.
#[derive(Debug, PartialEq, Eq)]
pub enum KeyAction {
    /// End of line: the line is submitted (`None` when it holds no word)
    /// and a new one begins.
    Submit(Option<Command>),
    /// Backspace or delete: the last byte of the line is taken back.
    Erase,
    /// The byte was added to the line and is echoed.
    Echo(u8),
    /// Nothing happens: an erase on an empty line, or a byte for a full one.
    Ignore,
}

/// What the monitor does for one received byte, with views.
pub enum KeyActionView {
    Submit(Option<CommandView>),
    Erase,
    Echo(u8),
    Ignore,
}

impl View for KeyAction {
    type V = KeyActionView;

    open spec fn view(&self) -> KeyActionView {
        match self {
            KeyAction::Submit(c) => KeyActionView::Submit(opt_command_view(*c)),
            KeyAction::Erase => KeyActionView::Erase,
            KeyAction::Echo(b) => KeyActionView::Echo(*b),
            KeyAction::Ignore => KeyActionView::Ignore,
        }
    }
}

/// The byte ends a line: carriage return or line feed.
pub open spec fn is_line_end(c: u8) -> bool {
    c == 13 || c == 10
}

/// The byte takes back the last one: delete or backspace.
pub open spec fn is_erase(c: u8) -> bool {
    c == 127 || c == 8
}

/// The line after byte `c` is received on `line`, and what the monitor
/// does.
pub open spec fn key_effect(line: Seq<u8>, c: u8) -> (Seq<u8>, KeyActionView) {
    if is_line_end(c) {
        (Seq::empty(), KeyActionView::Submit(command_for(first_words(line))))
    } else if is_erase(c) {
        if line.len() > 0 {
            (line.drop_last(), KeyActionView::Erase)
        } else {
            (line, KeyActionView::Ignore)
        }
    } else if line.len() < LINE_CAPACITY - 1 {
        (line.push(c), KeyActionView::Echo(c))
    } else {
        (line, KeyActionView::Ignore)
    }
}

/// The line being typed at the monitor prompt.
pub struct LineEditor {
    buf: Vec<u8>,
}

impl View for LineEditor {
    type V = Seq<u8>;

    closed spec fn view(&self) -> Seq<u8> {
        self.buf@
    }
}

impl LineEditor {
    /// The line fits its buffer with a byte to spare.
    #[verifier::type_invariant]
    spec fn inv(&self) -> bool {
        self.buf@.len() < LINE_CAPACITY
    }

    /// An empty line.
    pub fn new() -> (e: Self)
        ensures
            e@ == Seq::<u8>::empty(),
    {
        LineEditor { buf: Vec::new() }
    }

    /// The bytes typed so far; they fit the buffer with a byte to spare.
    pub fn line(&self) -> (r: &[u8])
        ensures
            r@ == self@,
            self@.len() < LINE_CAPACITY,
    {
        proof {
            use_type_invariant(self);
        }
        self.buf.as_slice()
    }
}

/// Advances the monitor by one received byte: a line end submits the line
/// and starts a new one, backspace or delete takes back the last byte, and
/// any other byte is added and echoed while the line has room.
pub fn run(editor: &mut LineEditor, byte: u8) -> (a: KeyAction)
    ensures
        (final(editor)@, a@) == key_effect(old(editor)@, byte),
        final(editor)@.len() < LINE_CAPACITY,
{
    proof {
        use_type_invariant(&*editor);
    }
    let mut buf: Vec<u8> = Vec::new();
    std::mem::swap(&mut buf, &mut editor.buf);
    let action = if byte == 13u8 || byte == 10u8 {
        let cmd = parse_command(buf.as_slice());
        buf.clear();
        KeyAction::Submit(cmd)
    } else if byte == 127u8 || byte == 8u8 {
        if buf.len() > 0 {
            buf.pop();
            KeyAction::Erase
        } else {
            KeyAction::Ignore
        }
    } else if buf.len() < LINE_CAPACITY - 1 {
        buf.push(byte);
        KeyAction::Echo(byte)
    } else {
        KeyAction::Ignore
    };
    editor.buf = buf;
    action
}

/// Printing a value and reading it back gives the value: the `0x` form
/// that the kernel prints parses to the same number.
pub proof fn lemma_hex_round_trip(v: u64)
    ensures
        hex_number(crate::serial::hex64_form(v)) == Some(v),
{
    let s = crate::serial::hex64_form(v);
    let d = crate::serial::hex_digits(v as nat, 16);
    crate::serial::lemma_hex_digits_len(v as nat, 16);
    assert(strip_hex_prefix(s) =~= d);
    lemma_hex_digits_value(v as nat, 16);
    lemma_modulus64_is_pow16();
    vstd::arithmetic::div_mod::lemma_small_mod(v as nat, modulus64());
}

proof fn lemma_modulus64_is_pow16()
    ensures
        modulus64() == vstd::arithmetic::power::pow(16, 16),
{
    vstd::arithmetic::power2::lemma2_to64();
    vstd::arithmetic::power2::lemma_pow2(4);
    vstd::arithmetic::power2::lemma_pow2(64);
    vstd::arithmetic::power::lemma_pow_multiplies(2, 4, 16);
}

proof fn lemma_hex_digits_value(v: nat, n: nat)
    ensures
        all_hex(crate::serial::hex_digits(v, n)),
        hex_value(crate::serial::hex_digits(v, n)) == v % (vstd::arithmetic::power::pow(
            16,
            n,
        ) as nat),
    decreases n,
{
    let d = crate::serial::hex_digits(v, n);
    vstd::arithmetic::power::lemma_pow_positive(16, n);
    if n == 0 {
        vstd::arithmetic::power::lemma_pow0(16);
    } else {
        let p = vstd::arithmetic::power::pow(16, (n - 1) as nat);
        lemma_hex_digits_value(v / 16, (n - 1) as nat);
        let pre = crate::serial::hex_digits(v / 16, (n - 1) as nat);
        assert(d.drop_last() =~= pre);
        let r = (v % 16) as int;
        assert(hex_digit_value(crate::serial::hex_char(r)) == Some(r));
        assert forall|j: int| 0 <= j < d.len() implies (#[trigger] hex_digit_value(d[j])) is Some by {
            if j < pre.len() {
                assert(d[j] == pre[j]);
                assert(hex_digit_value(pre[j]) is Some);
            }
        }
        vstd::arithmetic::power::lemma_pow_positive(16, (n - 1) as nat);
        vstd::arithmetic::power::lemma_pow1(16);
        vstd::arithmetic::power::lemma_pow_adds(16, 1, (n - 1) as nat);
        assert(vstd::arithmetic::power::pow(16, n) == 16 * p);
        vstd::arithmetic::div_mod::lemma_breakdown(v as int, 16, p);
    }
}

/// Each word of a line is non-empty and holds no blank, and a line yields
/// at most three words.
pub proof fn lemma_words_shape(s: Seq<u8>)
    ensures
        first_words(s).len() <= 3,
        forall|k: int| 0 <= k < first_words(s).len() ==> word_shape(#[trigger] first_words(s)[k]),
{
    lemma_words_from_shape(s, 0, 3);
}

/// A word is non-empty and holds no blank.
pub open spec fn word_shape(w: Seq<u8>) -> bool {
    w.len() > 0 && forall|j: int| 0 <= j < w.len() ==> !is_blank(#[trigger] w[j])
}

proof fn lemma_words_from_shape(s: Seq<u8>, i: int, n: nat)
    requires
        0 <= i,
    ensures
        words_from(s, i, n).len() <= n,
        forall|k: int|
            0 <= k < words_from(s, i, n).len() ==> word_shape(#[trigger] words_from(s, i, n)[k]),
    decreases n,
{
    if n > 0 {
        let st = skip_blanks(s, i);
        lemma_skip_blanks_bounds(s, i);
        if st < s.len() {
            let e = word_end(s, st);
            lemma_word_end_bounds(s, st);
            lemma_words_from_shape(s, e, (n - 1) as nat);
            let w = s.subrange(st, e);
            let rest = words_from(s, e, (n - 1) as nat);
            assert(words_from(s, i, n) == seq![w] + rest);
            assert forall|k: int| 0 <= k < words_from(s, i, n).len() implies word_shape(
                #[trigger] words_from(s, i, n)[k],
            ) by {
                if k == 0 {
                    assert(words_from(s, i, n)[0] == w);
                    assert forall|j: int| 0 <= j < w.len() implies !is_blank(#[trigger] w[j]) by {
                        assert(w[j] == s[st + j]);
                    }
                } else {
                    assert(words_from(s, i, n)[k] == rest[k - 1]);
                }
            }
        }
    }
}

/// Erasing takes back an echoed byte: the line is as before the byte came.
pub proof fn lemma_erase_undoes_echo(line: Seq<u8>, c: u8, e: u8)
    requires
        line.len() < LINE_CAPACITY - 1,
        !is_line_end(c),
        !is_erase(c),
        is_erase(e),
    ensures
        key_effect(line, c).1 == KeyActionView::Echo(c),
        key_effect(key_effect(line, c).0, e) == (line, KeyActionView::Erase),
{
    assert(line.push(c).drop_last() =~= line);
}

/// The line never outgrows its buffer, and a submitted line starts afresh.
pub proof fn lemma_line_bounded(line: Seq<u8>, c: u8)
    requires
        line.len() < LINE_CAPACITY,
    ensures
        key_effect(line, c).0.len() < LINE_CAPACITY,
        is_line_end(c) ==> key_effect(line, c).0.len() == 0,
{
}

/// The hex digits and their values: `0`-`9` are 0 to 9, `a`-`f` and
/// `A`-`F` are 10 to 15, and no other byte is a digit.
pub proof fn lemma_hex_digit_values(c: u8)
    ensures
        48 <= c <= 57 ==> hex_digit_value(c) == Some(c - 48),
        97 <= c <= 102 ==> hex_digit_value(c) == Some(c - 87),
        65 <= c <= 70 ==> hex_digit_value(c) == Some(c - 55),
        !(48 <= c <= 57 || 97 <= c <= 102 || 65 <= c <= 70) ==> hex_digit_value(c) is None,
{
}

/// The byte with an upper-case ASCII letter turned to lower case.
pub open spec fn lower_byte(c: u8) -> u8 {
    if 65 <= c <= 90 {
        (c + 32) as u8
    } else {
        c
    }
}

/// `s` with every upper-case ASCII letter turned to lower case.
pub open spec fn lower_bytes(s: Seq<u8>) -> Seq<u8> {
    s.map_values(|c: u8| lower_byte(c))
}

proof fn lemma_hex_value_lower(d: Seq<u8>)
    ensures
        hex_value(lower_bytes(d)) == hex_value(d),
        all_hex(lower_bytes(d)) == all_hex(d),
    decreases d.len(),
{
    let l = lower_bytes(d);
    assert forall|c: u8| #[trigger] hex_digit_value(lower_byte(c)) == hex_digit_value(c) by {}
    if d.len() > 0 {
        lemma_hex_value_lower(d.drop_last());
        assert(l.drop_last() =~= lower_bytes(d.drop_last()));
        assert(l.last() == lower_byte(d.last()));
    }
    if all_hex(d) {
        assert forall|i: int| 0 <= i < l.len() implies (#[trigger] hex_digit_value(l[i])) is Some by {
            assert(l[i] == lower_byte(d[i]));
            assert(hex_digit_value(d[i]) is Some);
        }
    }
    if all_hex(l) {
        assert forall|i: int| 0 <= i < d.len() implies (#[trigger] hex_digit_value(d[i])) is Some by {
            assert(l[i] == lower_byte(d[i]));
            assert(hex_digit_value(l[i]) is Some);
        }
    }
}

/// Hex numbers are read without regard to case: a string and its
/// lower-case form denote the same number, prefix `0X` and `0x` alike.
pub proof fn lemma_hex_number_ignores_case(s: Seq<u8>)
    ensures
        hex_number(lower_bytes(s)) == hex_number(s),
{
    let l = lower_bytes(s);
    assert(strip_hex_prefix(l) =~= lower_bytes(strip_hex_prefix(s)));
    lemma_hex_value_lower(strip_hex_prefix(s));
}

/// The blanks are exactly the ASCII white space bytes: space, tab, line
/// feed, form feed and carriage return.
pub proof fn lemma_blank_bytes(c: u8)
    ensures
        is_blank(c) <==> (c == 32 || c == 9 || c == 10 || c == 12 || c == 13),
{
}

proof fn lemma_word_end_all(s: Seq<u8>, i: int)
    requires
        0 <= i <= s.len(),
        forall|j: int| i <= j < s.len() ==> !is_blank(#[trigger] s[j]),
    ensures
        word_end(s, i) == s.len(),
    decreases s.len() - i,
{
    if i < s.len() {
        lemma_word_end_all(s, i + 1);
    }
}

proof fn lemma_skip_blanks_all(s: Seq<u8>, i: int)
    requires
        0 <= i <= s.len(),
        forall|j: int| i <= j < s.len() ==> is_blank(#[trigger] s[j]),
    ensures
        skip_blanks(s, i) == s.len(),
    decreases s.len() - i,
{
    if i < s.len() {
        lemma_skip_blanks_all(s, i + 1);
    }
}

/// A line of blanks only has no word.
pub proof fn lemma_blank_line_has_no_word(s: Seq<u8>)
    requires
        forall|j: int| 0 <= j < s.len() ==> is_blank(#[trigger] s[j]),
    ensures
        first_words(s) == Seq::<Seq<u8>>::empty(),
{
    lemma_skip_blanks_all(s, 0);
}

/// A line that is one run of non-blank bytes is one word, the whole line.
pub proof fn lemma_single_word(s: Seq<u8>)
    requires
        s.len() > 0,
        forall|j: int| 0 <= j < s.len() ==> !is_blank(#[trigger] s[j]),
    ensures
        first_words(s) == seq![s],
{
    lemma_word_end_all(s, 0);
    lemma_skip_blanks_all(s, s.len() as int);
    assert(skip_blanks(s, 0) == 0);
    assert(s.subrange(0, s.len() as int) =~= s);
    assert(words_from(s, s.len() as int, 2) =~= Seq::<Seq<u8>>::empty());
    assert(first_words(s) =~= seq![s]);
}

/// Two runs of non-blank bytes with one blank between them are two words.
pub proof fn lemma_two_words(a: Seq<u8>, c: u8, b: Seq<u8>)
    requires
        a.len() > 0,
        b.len() > 0,
        is_blank(c),
        forall|j: int| 0 <= j < a.len() ==> !is_blank(#[trigger] a[j]),
        forall|j: int| 0 <= j < b.len() ==> !is_blank(#[trigger] b[j]),
    ensures
        first_words(a + seq![c] + b) == seq![a, b],
{
    let s = a + seq![c] + b;
    let n = a.len() as int;
    assert forall|j: int| 0 <= j < n implies !is_blank(#[trigger] s.subrange(0, n)[j]) by {
        assert(s[j] == a[j]);
    }
    lemma_word_end_prefix(s, 0, n);
    assert(skip_blanks(s, 0) == 0) by {
        assert(s[0] == a[0]);
    }
    assert(s.subrange(0, n) =~= a);
    assert(skip_blanks(s, n + 1) == n + 1) by {
        assert(s[n + 1] == b[0]);
    }
    assert(skip_blanks(s, n) == n + 1) by {
        assert(s[n] == c);
    }
    lemma_word_end_all_from(s, n + 1, b);
    assert(s.subrange(n + 1, s.len() as int) =~= b);
    lemma_skip_blanks_all(s, s.len() as int);
    assert(words_from(s, s.len() as int, 1) =~= Seq::<Seq<u8>>::empty());
    assert(words_from(s, n, 2) =~= seq![b]);
    assert(words_from(s, 0, 3) =~= seq![a] + words_from(s, n, 2));
    assert(first_words(s) =~= seq![a, b]);
}

proof fn lemma_word_end_all_from(s: Seq<u8>, i: int, b: Seq<u8>)
    requires
        0 <= i,
        s.len() == i + b.len(),
        forall|j: int| 0 <= j < b.len() ==> s[i + j] == b[j],
        forall|j: int| 0 <= j < b.len() ==> !is_blank(#[trigger] b[j]),
    ensures
        word_end(s, i) == s.len(),
{
    assert forall|j: int| i <= j < s.len() implies !is_blank(#[trigger] s[j]) by {
        assert(s[j] == b[j - i]);
    }
    lemma_word_end_all(s, i);
}

proof fn lemma_word_end_prefix(s: Seq<u8>, i: int, n: int)
    requires
        0 <= i <= n < s.len(),
        forall|j: int| 0 <= j < n ==> !is_blank(#[trigger] s.subrange(0, n)[j]),
        is_blank(s[n]),
    ensures
        word_end(s, i) == n,
    decreases n - i,
{
    if i < n {
        assert(s.subrange(0, n)[i] == s[i]);
        lemma_word_end_prefix(s, i + 1, n);
    }
}

/// Hex digits are read most significant first: the number of two strings
/// of digits one after the other is that of the first times 16 to the
/// length of the second, plus that of the second.
pub proof fn lemma_hex_value_concat(s: Seq<u8>, t: Seq<u8>)
    requires
        all_hex(t),
    ensures
        hex_value(s + t) == hex_value(s) * vstd::arithmetic::power::pow(16, t.len()) + hex_value(t),
    decreases t.len(),
{
    vstd::arithmetic::power::lemma_pow0(16);
    if t.len() == 0 {
        assert(s + t =~= s);
    } else {
        assert(all_hex(t.drop_last())) by {
            assert forall|i: int| 0 <= i < t.drop_last().len() implies (#[trigger] hex_digit_value(
                t.drop_last()[i],
            )) is Some by {
                assert(t.drop_last()[i] == t[i]);
                assert(hex_digit_value(t[i]) is Some);
            }
        }
        assert(hex_digit_value(t[t.len() - 1]) is Some);
        assert(t.last() == t[t.len() - 1]);
        lemma_hex_digit_values(t.last());
        lemma_hex_value_concat(s, t.drop_last());
        assert((s + t).drop_last() =~= s + t.drop_last());
        assert((s + t).last() == t.last());
        vstd::arithmetic::power::lemma_pow_adds(16, 1, (t.len() - 1) as nat);
        vstd::arithmetic::power::lemma_pow1(16);
        let p = vstd::arithmetic::power::pow(16, (t.len() - 1) as nat);
        let hs = hex_value(s) as int;
        let ht = hex_value(t.drop_last()) as int;
        assert((hs * p + ht) * 16 == hs * (16 * p) + ht * 16) by (nonlinear_arith);
    }
}

} // verus!

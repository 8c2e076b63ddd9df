//! Escaping of text in the style of `char::escape_default`.

use vstd::prelude::*;
use crate::text::push_char;

verus! {

/// The lower-case hexadecimal digit for `d` (which is below 16).
pub open spec fn hex_digit(d: nat) -> char {
    if d < 10 {
        (('0' as nat) + d) as char
    } else {
        (('a' as nat) + (d - 10)) as char
    }
}

/// The lower-case hexadecimal digits of `n`, most significant first, with no
/// leading zeros (`0` is written as one digit).
pub open spec fn hex_digits(n: nat) -> Seq<char>
    decreases n,
{
    if n < 16 {
        seq![hex_digit(n)]
    } else {
        hex_digits(n / 16).push(hex_digit(n % 16))
    }
}

/// Whether `c` is written as itself: printable ASCII other than the quotes
/// and the backslash.
pub open spec fn is_plain(c: char) -> bool {
    0x20 <= (c as u32) <= 0x7e && c != '\'' && c != '"' && c != '\\'
}

/// What `char::escape_default` makes of one character.
pub open spec fn char_escape(c: char) -> Seq<char> {
    if c == '\t' {
        seq!['\\', 't']
    } else if c == '\r' {
        seq!['\\', 'r']
    } else if c == '\n' {
        seq!['\\', 'n']
    } else if c == '\'' || c == '"' || c == '\\' {
        seq!['\\', c]
    } else if is_plain(c) {
        seq![c]
    } else {
        seq!['\\', 'u', '{'] + hex_digits(c as nat) + seq!['}']
    }
}

/// The escaped form of a whole string: the escapes of its characters, in order.
pub open spec fn escaped(s: Seq<char>) -> Seq<char>
    decreases s.len(),
{
    if s.len() == 0 {
        seq![]
    } else {
        escaped(s.drop_last()) + char_escape(s.last())
    }
}

fn hex_digit_exec(d: u32) -> (c: char)
    requires
        d < 16,
    ensures
        c == hex_digit(d as nat),
{
    if d < 10 {
        let b: u8 = 48u8 + (d as u8);
        b as char
    } else {
        let b: u8 = 97u8 + ((d - 10) as u8);
        b as char
    }
}

fn push_hex_digits(out: &mut String, n: u32)
    ensures
        final(out)@ == old(out)@ + hex_digits(n as nat),
    decreases n,
{
    if n < 16 {
        let c = hex_digit_exec(n);
        push_char(out, c);
        assert(hex_digits(n as nat) == seq![hex_digit(n as nat)]);
    } else {
        push_hex_digits(out, n / 16);
        let c = hex_digit_exec(n % 16);
        push_char(out, c);
    }
}

/// Appends the escape of `c` to `out`.
pub fn push_char_escape(out: &mut String, c: char)
    ensures
        final(out)@ == old(out)@ + char_escape(c),
{
    let code: u32 = c as u32;
    if c == '\t' {
        push_char(out, '\\');
        push_char(out, 't');
    } else if c == '\r' {
        push_char(out, '\\');
        push_char(out, 'r');
    } else if c == '\n' {
        push_char(out, '\\');
        push_char(out, 'n');
    } else if c == '\'' || c == '"' || c == '\\' {
        push_char(out, '\\');
        push_char(out, c);
    } else if 0x20 <= code && code <= 0x7e {
        push_char(out, c);
    } else {
        push_char(out, '\\');
        push_char(out, 'u');
        push_char(out, '{');
        push_hex_digits(out, code);
        push_char(out, '}');
    }
}

/// Escapes every character of `s` as `char::escape_default` does, in order.
pub fn escape_default(s: &str) -> (r: String)
    ensures
        r@ == escaped(s@),
{
    let mut out = String::new();
    for c in it: s.chars()
        invariant
            it.seq() == s@,
            out@ == escaped(s@.take(it.index())),
    {
        proof {
            assert(s@.take(it.index() + 1).drop_last() =~= s@.take(it.index()));
        }
        push_char_escape(&mut out, c);
    }
    proof {
        assert(s@.take(s@.len() as int) =~= s@);
    }
    out
}

/// Whether every character of `s` is printable ASCII (a space up to `~`).
pub open spec fn printable(s: Seq<char>) -> bool {
    forall|i: int| 0 <= i < s.len() ==> 0x20 <= #[trigger] (s[i] as u32) <= 0x7e
}

proof fn lemma_hex_digits_printable(n: nat)
    ensures
        printable(hex_digits(n)),
    decreases n,
{
    if n >= 16 {
        lemma_hex_digits_printable(n / 16);
        assert forall|i: int| 0 <= i < hex_digits(n).len() implies 0x20 <= #[trigger] (
        hex_digits(n)[i] as u32) <= 0x7e by {
            if i < hex_digits(n / 16).len() {
                assert(hex_digits(n)[i] == hex_digits(n / 16)[i]);
            }
        }
    }
}

proof fn lemma_char_escape_printable(c: char)
    ensures
        printable(char_escape(c)),
{
    if !(c == '\t' || c == '\r' || c == '\n' || c == '\'' || c == '"' || c == '\\' || is_plain(c)) {
        lemma_hex_digits_printable(c as nat);
        let h = hex_digits(c as nat);
        let e = seq!['\\', 'u', '{'] + h + seq!['}'];
        assert forall|i: int| 0 <= i < e.len() implies 0x20 <= #[trigger] (e[i] as u32) <= 0x7e by {
            if 3 <= i < 3 + h.len() {
                assert(e[i] == h[i - 3]);
            }
        }
    }
}

/// Escaped text is printable ASCII through and through: in particular it
/// holds no line break, so an escaped text never spans lines.
pub proof fn lemma_escaped_printable(s: Seq<char>)
    ensures
        printable(escaped(s)),
    decreases s.len(),
{
    if s.len() > 0 {
        lemma_escaped_printable(s.drop_last());
        lemma_char_escape_printable(s.last());
        let a = escaped(s.drop_last());
        let b = char_escape(s.last());
        assert forall|i: int| 0 <= i < escaped(s).len() implies 0x20 <= #[trigger] (
        escaped(s)[i] as u32) <= 0x7e by {
            if i < a.len() {
                assert(escaped(s)[i] == a[i]);
            } else {
                assert(escaped(s)[i] == b[i - a.len()]);
            }
        }
    }
}

/// Escaping a text is escaping its parts: the escape of `a + b` is the
/// escape of `a` followed by the escape of `b`.
pub proof fn lemma_escaped_concat(a: Seq<char>, b: Seq<char>)
    ensures
        escaped(a + b) == escaped(a) + escaped(b),
    decreases b.len(),
{
    if b.len() == 0 {
        assert(a + b =~= a);
    } else {
        lemma_escaped_concat(a, b.drop_last());
        assert((a + b).drop_last() =~= a + b.drop_last());
        assert((a + b).last() == b.last());
        assert(escaped(a + b) =~= escaped(a) + escaped(b));
    }
}

proof fn lemma_hex_digit_values(d: nat)
    requires
        d < 16,
    ensures
        hex_digit(d) as int == if d < 10 { 0x30 + d as int } else { 0x61 + (d - 10) },
{
}

proof fn lemma_hex_digits_shape(n: nat)
    ensures
        hex_digits(n).len() >= 1,
        n >= 16 ==> hex_digits(n).len() >= 2,
        forall|i: int| 0 <= i < hex_digits(n).len() ==> #[trigger] hex_digits(n)[i] != '}',
    decreases n,
{
    if n < 16 {
        lemma_hex_digit_values(n);
    } else {
        lemma_hex_digits_shape(n / 16);
        lemma_hex_digit_values(n % 16);
        assert forall|i: int| 0 <= i < hex_digits(n).len() implies #[trigger] hex_digits(n)[i] != '}' by {
            if i < hex_digits(n / 16).len() {
                assert(hex_digits(n)[i] == hex_digits(n / 16)[i]);
            }
        }
    }
}

proof fn lemma_hex_digit_injective(d: nat, e: nat)
    requires
        d < 16,
        e < 16,
        hex_digit(d) == hex_digit(e),
    ensures
        d == e,
{
    lemma_hex_digit_values(d);
    lemma_hex_digit_values(e);
}

/// Different numbers have different hexadecimal digits.
proof fn lemma_hex_digits_injective(n: nat, m: nat)
    requires
        hex_digits(n) == hex_digits(m),
    ensures
        n == m,
    decreases n,
{
    lemma_hex_digits_shape(n);
    lemma_hex_digits_shape(m);
    if n < 16 && m < 16 {
        assert(hex_digits(n) == seq![hex_digit(n)]);
        assert(hex_digits(m) == seq![hex_digit(m)]);
        assert(seq![hex_digit(n)][0] == hex_digit(n));
        assert(seq![hex_digit(m)][0] == hex_digit(m));
        assert(hex_digits(n)[0] == hex_digits(m)[0]);
        lemma_hex_digit_injective(n, m);
    } else if n >= 16 && m >= 16 {
        let a = hex_digits(n);
        let b = hex_digits(m);
        assert(a.last() == b.last());
        lemma_hex_digit_injective(n % 16, m % 16);
        assert(a.drop_last() =~= hex_digits(n / 16));
        assert(b.drop_last() =~= hex_digits(m / 16));
        lemma_hex_digits_injective(n / 16, m / 16);
    }
}

proof fn lemma_char_escape_len(c: char)
    ensures
        char_escape(c).len() >= 1,
        char_escape(c).len() == 1 <==> is_plain(c),
{
    lemma_hex_digits_shape(c as nat);
}

/// A text is its own escape exactly where every character of it is
/// printable ASCII other than quotes and the backslash: any other character
/// makes the escape longer than the text.
pub proof fn lemma_escaped_plain(s: Seq<char>)
    ensures
        escaped(s) == s <==> forall|i: int| 0 <= i < s.len() ==> #[trigger] is_plain(s[i]),
        escaped(s).len() >= s.len(),
    decreases s.len(),
{
    if s.len() > 0 {
        let init = s.drop_last();
        lemma_escaped_plain(init);
        lemma_char_escape_len(s.last());
        if forall|i: int| 0 <= i < s.len() ==> #[trigger] is_plain(s[i]) {
            assert forall|i: int| 0 <= i < init.len() implies #[trigger] is_plain(init[i]) by {
                assert(init[i] == s[i]);
                assert(is_plain(s[i]));
            }
            assert(is_plain(s[s.len() - 1]));
            assert(escaped(init) == init);
            assert(char_escape(s.last()) == seq![s.last()]);
            assert(escaped(s) =~= s);
        }
        if escaped(s) == s {
            assert(escaped(init).len() + char_escape(s.last()).len() == s.len());
            assert(char_escape(s.last()).len() == 1);
            assert(escaped(init).len() == init.len());
            assert(escaped(init) =~= s.subrange(0, init.len() as int));
            assert(escaped(init) =~= init);
            assert forall|i: int| 0 <= i < s.len() implies #[trigger] is_plain(s[i]) by {
                if i < init.len() {
                    assert(is_plain(init[i]));
                    assert(init[i] == s[i]);
                }
            }
        }
    } else {
        assert(escaped(s) =~= s);
    }
}

/// Where the escape of `c` begins the escape of `d`, the two characters are
/// the same: the escapes are prefix-free.
proof fn lemma_char_escape_prefix_free(c: char, d: char)
    requires
        char_escape(c).len() <= char_escape(d).len(),
        char_escape(d).subrange(0, char_escape(c).len() as int) == char_escape(c),
    ensures
        c == d,
{
    let ec = char_escape(c);
    let ed = char_escape(d);
    lemma_char_escape_len(c);
    lemma_char_escape_len(d);
    assert(ed[0] == ec[0]);
    if ec.len() >= 2 {
        assert(ed[1] == ec[1]);
    }
    let hc = hex_digits(c as nat);
    let hd = hex_digits(d as nat);
    lemma_hex_digits_shape(c as nat);
    lemma_hex_digits_shape(d as nat);
    if ec.len() >= 2 && ec[1] == 'u' {
        // both are `\u{..}` escapes
        assert(ed[1] == 'u');
        assert(ec == seq!['\\', 'u', '{'] + hc + seq!['}']);
        assert(ed == seq!['\\', 'u', '{'] + hd + seq!['}']);
        if hc.len() < hd.len() {
            let k: int = 3 + hc.len() as int;
            assert(ec[k] == '}');
            assert(ed[k] == hd[hc.len() as int]);
            assert(ed[k] == ec[k]);
        }
        assert(hc.len() == hd.len());
        assert forall|i: int| 0 <= i < hc.len() implies hc[i] == hd[i] by {
            assert(ec[3 + i] == hc[i]);
            assert(ed[3 + i] == hd[i]);
            assert(ed[3 + i] == ec[3 + i]);
        }
        assert(hc =~= hd);
        lemma_hex_digits_injective(c as nat, d as nat);
    }
}

proof fn lemma_escaped_front(c: char, s: Seq<char>)
    ensures
        escaped(seq![c] + s) == char_escape(c) + escaped(s),
{
    lemma_escaped_concat(seq![c], s);
    let one = seq![c];
    assert(one.drop_last() =~= Seq::<char>::empty());
    assert(one.last() == c);
    assert(escaped(Seq::<char>::empty()) == Seq::<char>::empty());
    assert(escaped(one) == escaped(one.drop_last()) + char_escape(one.last()));
    assert(escaped(one) =~= char_escape(c));
}

/// Escaping loses nothing: different texts have different escapes.
pub proof fn lemma_escaped_injective(s: Seq<char>, t: Seq<char>)
    requires
        escaped(s) == escaped(t),
    ensures
        s == t,
    decreases s.len(),
{
    lemma_escaped_plain(s);
    lemma_escaped_plain(t);
    if s.len() == 0 || t.len() == 0 {
        if s.len() > 0 {
            lemma_char_escape_len(s.last());
        }
        if t.len() > 0 {
            lemma_char_escape_len(t.last());
        }
        assert(s =~= t);
    } else {
        let c = s[0];
        let d = t[0];
        let s1 = s.drop_first();
        let t1 = t.drop_first();
        assert(s =~= seq![c] + s1);
        assert(t =~= seq![d] + t1);
        lemma_escaped_front(c, s1);
        lemma_escaped_front(d, t1);
        let e = escaped(s);
        let ec = char_escape(c);
        let ed = char_escape(d);
        if ec.len() <= ed.len() {
            assert(e.subrange(0, ec.len() as int) =~= ec);
            assert(e.subrange(0, ed.len() as int) =~= ed);
            assert(ed.subrange(0, ec.len() as int) =~= ec);
            lemma_char_escape_prefix_free(c, d);
        } else {
            assert(e.subrange(0, ec.len() as int) =~= ec);
            assert(e.subrange(0, ed.len() as int) =~= ed);
            assert(ec.subrange(0, ed.len() as int) =~= ed);
            lemma_char_escape_prefix_free(d, c);
        }
        assert(escaped(s1) =~= e.subrange(ec.len() as int, e.len() as int));
        assert(escaped(t1) =~= e.subrange(ed.len() as int, e.len() as int));
        lemma_escaped_injective(s1, t1);
    }
}

/// The number that a hexadecimal digit stands for.
pub open spec fn hex_value_of(c: char) -> nat {
    if (c as int) <= 0x39 {
        (c as int - 0x30) as nat
    } else {
        (c as int - 0x61 + 10) as nat
    }
}

/// The number that a string of hexadecimal digits stands for, most
/// significant first.
pub open spec fn hex_value(digits: Seq<char>) -> nat
    decreases digits.len(),
{
    if digits.len() == 0 {
        0
    } else {
        hex_value(digits.drop_last()) * 16 + hex_value_of(digits.last())
    }
}

/// How many characters from `i` on come before the next `}` (or the end).
pub open spec fn run_to_brace(e: Seq<char>, i: int) -> nat
    decreases e.len() - i,
{
    if i < 0 || i >= e.len() || e[i] == '}' {
        0
    } else {
        1 + run_to_brace(e, i + 1)
    }
}

/// The character that a two-character escape `\x` stands for.
pub open spec fn simple_unescape(x: char) -> char {
    if x == 't' {
        '\t'
    } else if x == 'r' {
        '\r'
    } else if x == 'n' {
        '\n'
    } else {
        x
    }
}

/// Reads escaped text back in Rust's escape syntax: a plain character
/// stands for itself, `\t`, `\r`, `\n`, `\'`, `\"`, `\\` for the character
/// they name, `\u{..}` for the character with that hexadecimal code. What
/// is not well formed reads as nothing.
pub open spec fn unescaped(e: Seq<char>) -> Seq<char>
    decreases e.len(),
{
    if e.len() == 0 {
        seq![]
    } else if e[0] != '\\' {
        seq![e[0]] + unescaped(e.subrange(1, e.len() as int))
    } else if e.len() >= 2 && e[1] != 'u' {
        seq![simple_unescape(e[1])] + unescaped(e.subrange(2, e.len() as int))
    } else {
        let k: int = run_to_brace(e, 3) as int;
        if 3 + k + 1 <= e.len() {
            seq![hex_value(e.subrange(3, 3 + k)) as char] + unescaped(e.subrange(3 + k + 1, e.len() as int))
        } else {
            seq![]
        }
    }
}

proof fn lemma_hex_value_digits(n: nat)
    ensures
        hex_value(hex_digits(n)) == n,
    decreases n,
{
    if n < 16 {
        lemma_hex_digit_values(n);
        let h = hex_digits(n);
        assert(h == seq![hex_digit(n)]);
        assert(h.drop_last() =~= Seq::<char>::empty());
        assert(h.last() == hex_digit(n));
        assert(hex_value_of(hex_digit(n)) == n);
        assert(hex_value(h.drop_last()) == 0);
        assert(hex_value(h) == hex_value(h.drop_last()) * 16 + hex_value_of(h.last()));
    } else {
        lemma_hex_value_digits(n / 16);
        lemma_hex_digit_values(n % 16);
        let h = hex_digits(n);
        assert(h.drop_last() =~= hex_digits(n / 16));
        assert(h.last() == hex_digit(n % 16));
        assert(hex_value_of(hex_digit(n % 16)) == n % 16);
        assert(hex_value(h) == hex_value(h.drop_last()) * 16 + hex_value_of(h.last()));
        assert((n / 16) * 16 + n % 16 == n);
    }
}

proof fn lemma_run_from(e: Seq<char>, h: Seq<char>, i: int)
    requires
        3 <= i <= 3 + h.len(),
        e.len() > 3 + h.len(),
        forall|j: int| 3 <= j < 3 + h.len() ==> #[trigger] e[j] != '}',
        e[3 + h.len() as int] == '}',
    ensures
        run_to_brace(e, i) == 3 + h.len() - i,
    decreases 3 + h.len() - i,
{
    if i < 3 + h.len() {
        lemma_run_from(e, h, i + 1);
    }
}

proof fn lemma_unescaped_front(c: char, r: Seq<char>)
    ensures
        unescaped(char_escape(c) + r) == seq![c] + unescaped(r),
{
    let ec = char_escape(c);
    let e = ec + r;
    lemma_char_escape_len(c);
    if is_plain(c) || !(c == '\t' || c == '\r' || c == '\n' || c == '\'' || c == '"' || c == '\\') {
        if is_plain(c) {
            assert(e[0] == c);
            assert(e.subrange(1, e.len() as int) =~= r);
        } else {
            let h = hex_digits(c as nat);
            lemma_hex_digits_shape(c as nat);
            assert(ec == seq!['\\', 'u', '{'] + h + seq!['}']);
            assert(e =~= seq!['\\', 'u', '{'] + h + seq!['}'] + r);
            assert forall|j: int| 3 <= j < 3 + h.len() implies #[trigger] e[j] != '}' by {
                assert(e[j] == h[j - 3]);
            }
            lemma_run_from(e, h, 3);
            assert(e.subrange(3, 3 + h.len() as int) =~= h);
            lemma_hex_value_digits(c as nat);
            assert(e.subrange(3 + h.len() as int + 1, e.len() as int) =~= r);
            assert(e[0] == '\\' && e[1] == 'u');
        }
    } else {
        assert(e[0] == '\\');
        assert(e.subrange(2, e.len() as int) =~= r);
    }
}

/// Reading back escaped text gives the text: [`unescaped`] undoes
/// [`escaped`], so different texts have different escapes.
pub proof fn lemma_unescaped_escaped(s: Seq<char>)
    ensures
        unescaped(escaped(s)) == s,
    decreases s.len(),
{
    if s.len() == 0 {
        assert(unescaped(escaped(s)) =~= s);
    } else {
        let c = s[0];
        let s1 = s.drop_first();
        assert(s =~= seq![c] + s1);
        lemma_escaped_front(c, s1);
        lemma_unescaped_front(c, escaped(s1));
        lemma_unescaped_escaped(s1);
    }
}

/// How long the escape of a character is: one character for plain ones,
/// two for tab, carriage return, line feed, the quotes and the backslash,
/// and for all others `\u{` and `}` round the hexadecimal digits of the code.
pub proof fn lemma_char_escape_width(c: char)
    ensures
        char_escape(c).len() == if is_plain(c) {
            1
        } else if c == '\t' || c == '\r' || c == '\n' || c == '\'' || c == '"' || c == '\\' {
            2
        } else {
            4 + hex_digits(c as nat).len()
        },
        char_escape(c)[0] == if is_plain(c) { c } else { '\\' },
{
}

} // verus!

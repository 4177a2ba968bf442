//! Escaping a URL so that `cmd.exe` passes it on as one literal argument.
use vstd::prelude::*;

verus! {

/// The shell's escape character, which makes the next character literal.
pub const ESCAPE_CHAR: char = '^';

/// The shell's command-chaining character.
pub const CHAIN_CHAR: char = '&';

/// What one character of a URL becomes on the command line: the escape
/// character is doubled, the chaining character gets an escape character in
/// front, any other character stands for itself.
pub open spec fn escape_one(c: char) -> Seq<char> {
    if c == ESCAPE_CHAR {
        seq![ESCAPE_CHAR, ESCAPE_CHAR]
    } else if c == CHAIN_CHAR {
        seq![ESCAPE_CHAR, CHAIN_CHAR]
    } else {
        seq![c]
    }
}

/// The escaped form of a whole URL, character by character.
pub open spec fn escaped(s: Seq<char>) -> Seq<char>
    decreases s.len(),
{
    if s.len() == 0 {
        Seq::empty()
    } else {
        escaped(s.drop_last()) + escape_one(s.last())
    }
}

/// `s` with every occurrence of `from` replaced by `to`.
pub open spec fn replace_char(s: Seq<char>, from: char, to: Seq<char>) -> Seq<char>
    decreases s.len(),
{
    if s.len() == 0 {
        Seq::empty()
    } else {
        replace_char(s.drop_last(), from, to) + if s.last() == from {
            to
        } else {
            seq![s.last()]
        }
    }
}

/// A character that the shell reads specially.
pub open spec fn is_special(c: char) -> bool {
    c == ESCAPE_CHAR || c == CHAIN_CHAR
}

/// Escaping works piece by piece: the escaped form of two pieces joined is
/// the two escaped forms joined.
pub proof fn lemma_escaped_concat(a: Seq<char>, b: Seq<char>)
    ensures
        escaped(a + b) == escaped(a) + escaped(b),
    decreases b.len(),
{
    if b.len() == 0 {
        assert(a + b =~= a);
        assert(escaped(b) =~= Seq::<char>::empty());
        assert(escaped(a) + escaped(b) =~= escaped(a));
    } else {
        assert((a + b).drop_last() =~= a + b.drop_last());
        assert((a + b).last() == b.last());
        lemma_escaped_concat(a, b.drop_last());
        assert(escaped(a) + escaped(b.drop_last()) + escape_one(b.last()) =~= escaped(a) + (
        escaped(b.drop_last()) + escape_one(b.last())));
    }
}

/// A URL with no special character is left as it is.
pub proof fn lemma_escaped_plain(s: Seq<char>)
    requires
        forall|i: int| 0 <= i < s.len() ==> !is_special(#[trigger] s[i]),
    ensures
        escaped(s) == s,
    decreases s.len(),
{
    if s.len() > 0 {
        lemma_escaped_plain(s.drop_last());
        assert(s.drop_last() + seq![s.last()] =~= s);
    }
}

/// A chaining character anywhere in a URL comes out with the escape
/// character in front of it, and the text around it is escaped as usual.
pub proof fn law_chain_char_is_prefixed(a: Seq<char>, b: Seq<char>)
    ensures
        escaped(a + seq![CHAIN_CHAR] + b) == escaped(a) + seq![ESCAPE_CHAR, CHAIN_CHAR]
            + escaped(b),
{
    lemma_escaped_concat(a + seq![CHAIN_CHAR], b);
    lemma_escaped_concat(a, seq![CHAIN_CHAR]);
    lemma_escaped_single(CHAIN_CHAR);
    assert(escaped(a) + seq![ESCAPE_CHAR, CHAIN_CHAR] + escaped(b) =~= escaped(a) + (seq![ESCAPE_CHAR, CHAIN_CHAR] + escaped(b)));
}

/// An escape character anywhere in a URL comes out doubled, and the text
/// around it is escaped as usual.
pub proof fn law_escape_char_is_doubled(a: Seq<char>, b: Seq<char>)
    ensures
        escaped(a + seq![ESCAPE_CHAR] + b) == escaped(a) + seq![ESCAPE_CHAR, ESCAPE_CHAR]
            + escaped(b),
{
    lemma_escaped_concat(a + seq![ESCAPE_CHAR], b);
    lemma_escaped_concat(a, seq![ESCAPE_CHAR]);
    lemma_escaped_single(ESCAPE_CHAR);
    assert(escaped(a) + seq![ESCAPE_CHAR, ESCAPE_CHAR] + escaped(b) =~= escaped(a) + (seq![ESCAPE_CHAR, ESCAPE_CHAR] + escaped(b)));
}

/// Escaping is the same as two replacements made one after the other: first
/// every escape character is doubled, then every chaining character gets an
/// escape character in front. The escape characters inserted by the second
/// step are not escaped again.
pub proof fn law_escape_then_chain(s: Seq<char>)
    ensures
        escaped(s) == replace_char(
            replace_char(s, ESCAPE_CHAR, seq![ESCAPE_CHAR, ESCAPE_CHAR]),
            CHAIN_CHAR,
            seq![ESCAPE_CHAR, CHAIN_CHAR],
        ),
    decreases s.len(),
{
    let first = |t: Seq<char>| replace_char(t, ESCAPE_CHAR, seq![ESCAPE_CHAR, ESCAPE_CHAR]);
    let second = |t: Seq<char>| replace_char(t, CHAIN_CHAR, seq![ESCAPE_CHAR, CHAIN_CHAR]);
    if s.len() > 0 {
        law_escape_then_chain(s.drop_last());
        let c = s.last();
        let piece = if c == ESCAPE_CHAR {
            seq![ESCAPE_CHAR, ESCAPE_CHAR]
        } else {
            seq![c]
        };
        assert(first(s) == first(s.drop_last()) + piece);
        lemma_replace_concat(first(s.drop_last()), piece, CHAIN_CHAR, seq![ESCAPE_CHAR, CHAIN_CHAR]);
        if c == ESCAPE_CHAR {
            reveal_with_fuel(replace_char, 3);
            assert(piece.drop_last() =~= seq![ESCAPE_CHAR]);
            assert(piece.drop_last().drop_last() =~= Seq::<char>::empty());
            assert(second(piece) =~= escape_one(c));
        } else {
            reveal_with_fuel(replace_char, 2);
            assert(piece.drop_last() =~= Seq::<char>::empty());
            assert(second(piece) =~= escape_one(c));
        }
    } else {
        assert(first(s) =~= Seq::<char>::empty());
    }
}

/// Escapes `url` for the command shell: each escape character is doubled and
/// each chaining character gets an escape character in front.
pub fn escape_for_shell(url: &str) -> (r: String)
    ensures
        r@ == escaped(url@),
{
    let n = url.unicode_len();
    let mut out = String::new();
    let mut start: usize = 0;
    let mut i: usize = 0;
    for c in it: url.chars()
        invariant
            it.seq() == url@,
            i == it.index(),
            n == url@.len(),
            start <= i <= n,
            out@ == escaped(url@.take(start as int)),
            forall|k: int| start <= k < i ==> !is_special(#[trigger] url@[k]),
    {
        assert(c == url@[i as int]);
        if c == ESCAPE_CHAR || c == CHAIN_CHAR {
            let plain = url.substring_char(start, i);
            out.append(plain);
            let mark = if c == ESCAPE_CHAR {
                "^^"
            } else {
                "^&"
            };
            proof {
                reveal_strlit("^^");
                reveal_strlit("^&");
                assert(mark@ =~= escape_one(c));
                lemma_escaped_plain(plain@);
                lemma_escaped_concat(url@.take(start as int), plain@);
                lemma_escaped_concat(url@.take(start as int) + plain@, seq![c]);
                lemma_escaped_single(c);
                assert(url@.take(start as int) + plain@ + seq![c] =~= url@.take(i + 1));
            }
            out.append(mark);
            start = i + 1;
        }
        i = i + 1;
    }
    let rest = url.substring_char(start, n);
    proof {
        lemma_escaped_plain(rest@);
        lemma_escaped_concat(url@.take(start as int), rest@);
        assert(url@.take(start as int) + rest@ =~= url@);
    }
    out.append(rest);
    out
}

/// A single character is escaped as `escape_one` says.
proof fn lemma_escaped_single(c: char)
    ensures
        escaped(seq![c]) == escape_one(c),
{
    reveal_with_fuel(escaped, 2);
    assert(seq![c].drop_last() =~= Seq::<char>::empty());
    assert(seq![c].last() == c);
    assert(Seq::<char>::empty() + escape_one(c) =~= escape_one(c));
}

/// Replacing works piece by piece, like escaping.
proof fn lemma_replace_concat(a: Seq<char>, b: Seq<char>, from: char, to: Seq<char>)
    ensures
        replace_char(a + b, from, to) == replace_char(a, from, to) + replace_char(b, from, to),
    decreases b.len(),
{
    if b.len() == 0 {
        assert(a + b =~= a);
        assert(replace_char(b, from, to) =~= Seq::<char>::empty());
        assert(replace_char(a, from, to) + replace_char(b, from, to) =~= replace_char(a, from, to));
    } else {
        assert((a + b).drop_last() =~= a + b.drop_last());
        assert((a + b).last() == b.last());
        lemma_replace_concat(a, b.drop_last(), from, to);
        let tail = if b.last() == from {
            to
        } else {
            seq![b.last()]
        };
        assert(replace_char(a, from, to) + replace_char(b.drop_last(), from, to) + tail
            =~= replace_char(a, from, to) + (replace_char(b.drop_last(), from, to) + tail));
    }
}

} // verus!

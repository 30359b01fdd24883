//! The token parser: splits a free-text field such as "foo, bar, and `baz`"
//! into its tokens.
use vstd::prelude::*;
use crate::text::{chars_of, string_of, string_of_range, texts, to_uppercase, trim, trimmed, uppercase};

verus! {

/// The parser's state between two characters.
pub struct Scan {
    /// The tokens emitted so far.
    pub tokens: Seq<Seq<char>>,
    /// The characters of the token being read.
    pub buf: Seq<char>,
    /// The character that closes the quotation or bracket being read, if one is open.
    pub quoted: Option<char>,
}

/// The characters that separate tokens.
pub open spec fn is_separator(c: char) -> bool {
    c == ' ' || c == '\n' || c == '\r' || c == ',' || c == ';' || c == '/'
}

/// The characters that open a quotation, which the same character closes.
pub open spec fn is_quote(c: char) -> bool {
    c == '`' || c == '"' || c == '\''
}

/// The word "and", which separates tokens and is not one itself.
pub open spec fn word_and() -> Seq<char> {
    seq!['a', 'n', 'd']
}

/// A token without its enclosing quotes, if it begins with a quote and ends
/// with the same one.
pub open spec fn unquote(token: Seq<char>) -> Seq<char> {
    if token.len() >= 2 && is_quote(token[0]) && token.last() == token[0] {
        token.subrange(1, token.len() - 1)
    } else {
        token
    }
}

/// The tokens after the token being read has ended: it is emitted unless it
/// is empty or the word "and".
pub open spec fn flush(tokens: Seq<Seq<char>>, buf: Seq<char>) -> Seq<Seq<char>> {
    if buf.len() > 0 && buf != word_and() {
        tokens.push(unquote(buf))
    } else {
        tokens
    }
}

/// The state before the first character.
pub open spec fn scan_start() -> Scan {
    Scan { tokens: Seq::empty(), buf: Seq::empty(), quoted: None }
}

/// The state after one more character.
///
/// Outside a quotation a separator ends the token being read. A quote opens
/// a quotation that the same quote closes, `(` one that `)` closes and `[`
/// one that `]` closes. Every other character joins the token, so "and"
/// within a longer word does not part it.
pub open spec fn step(st: Scan, c: char) -> Scan {
    if st.quoted is None && is_separator(c) {
        Scan { tokens: flush(st.tokens, st.buf), buf: Seq::empty(), quoted: None }
    } else if st.quoted is None && is_quote(c) {
        Scan { tokens: st.tokens, buf: st.buf.push(c), quoted: Some(c) }
    } else if st.quoted is None && c == '(' {
        Scan { tokens: st.tokens, buf: st.buf.push(c), quoted: Some(')') }
    } else if st.quoted is None && c == '[' {
        Scan { tokens: st.tokens, buf: st.buf.push(c), quoted: Some(']') }
    } else {
        Scan {
            tokens: st.tokens,
            buf: st.buf.push(c),
            quoted: if st.quoted == Some(c) {
                None
            } else {
                st.quoted
            },
        }
    }
}

/// The state after the characters of `s`, read from state `st`.
pub open spec fn scan(st: Scan, s: Seq<char>) -> Scan
    decreases s.len(),
{
    if s.len() == 0 {
        st
    } else {
        step(scan(st, s.drop_last()), s.last())
    }
}

/// The tokens of a text. A quotation or bracket that never closes takes the
/// rest of the text into its token.
pub open spec fn tokens_of(s: Seq<char>) -> Seq<Seq<char>> {
    let end = scan(scan_start(), s);
    flush(end.tokens, end.buf)
}

/// Whether a text stands for "not applicable": in upper case it reads "NA" or "N/A".
pub open spec fn is_not_applicable(s: Seq<char>) -> bool {
    uppercase(s) == seq!['N', 'A'] || uppercase(s) == seq!['N', '/', 'A']
}

/// The tokens of a free-text field: none if the trimmed field stands for
/// "not applicable", else the tokens of the trimmed field.
pub open spec fn parsed_field(input: Seq<char>) -> Seq<Seq<char>> {
    if is_not_applicable(trimmed(input)) {
        Seq::empty()
    } else {
        tokens_of(trimmed(input))
    }
}

/// Reading a text that begins with `c` is reading the rest from the state
/// after `c`.
pub proof fn lemma_scan_first(st: Scan, c: char, s: Seq<char>)
    ensures
        scan(st, seq![c] + s) == scan(step(st, c), s),
    decreases s.len(),
{
    let whole = seq![c] + s;
    if s.len() > 0 {
        lemma_scan_first(st, c, s.drop_last());
        assert(whole.drop_last() == seq![c] + s.drop_last());
        assert(scan(st, whole) == step(scan(st, whole.drop_last()), s.last()));
    }
}

/// Separators at the ends of a text make no tokens.
///
/// A separator in front of a text changes nothing about its tokens, and
/// neither does one behind it, unless a quotation or bracket is open there. A
/// text of separators alone has no tokens.
pub proof fn lemma_separators_at_the_ends(c: char, s: Seq<char>)
    requires
        is_separator(c),
    ensures
        tokens_of(seq![c] + s) == tokens_of(s),
        scan(scan_start(), s).quoted is None ==> tokens_of(s.push(c)) == tokens_of(s),
        (forall|i: int| 0 <= i < s.len() ==> is_separator(s[i])) ==> tokens_of(s).len() == 0,
{
    lemma_scan_first(scan_start(), c, s);
    assert(s.push(c).drop_last() == s);
    if forall|i: int| 0 <= i < s.len() ==> is_separator(s[i]) {
        lemma_separators_only(s);
    }
}

/// Whether a character is none that the parser treats apart: no separator,
/// no quote and no opening bracket.
pub open spec fn is_plain(c: char) -> bool {
    !is_separator(c) && !is_quote(c) && c != '(' && c != '['
}

/// A word is one token: a text of plain characters, other than the word
/// "and", is its own single token, whether or not "and" occurs within it.
pub proof fn lemma_one_word(s: Seq<char>)
    requires
        s.len() > 0,
        s != word_and(),
        forall|i: int| 0 <= i < s.len() ==> is_plain(s[i]),
    ensures
        tokens_of(s) == seq![s],
{
    lemma_plain_text(s);
    assert(Seq::<Seq<char>>::empty().push(s) =~= seq![s]);
}

/// After a text of plain characters the parser holds the text as the token
/// being read.
proof fn lemma_plain_text(s: Seq<char>)
    requires
        forall|i: int| 0 <= i < s.len() ==> is_plain(s[i]),
    ensures
        scan(scan_start(), s) == (Scan { tokens: Seq::empty(), buf: s, quoted: None }),
    decreases s.len(),
{
    if s.len() > 0 {
        lemma_plain_text(s.drop_last());
        assert(s.drop_last().push(s.last()) =~= s);
    } else {
        assert(s =~= Seq::<char>::empty());
    }
}

/// After a text of separators alone the parser is where it began.
proof fn lemma_separators_only(s: Seq<char>)
    requires
        forall|i: int| 0 <= i < s.len() ==> is_separator(s[i]),
    ensures
        scan(scan_start(), s) == scan_start(),
    decreases s.len(),
{
    if s.len() > 0 {
        lemma_separators_only(s.drop_last());
    }
}

fn is_separator_char(c: char) -> (b: bool)
    ensures
        b == is_separator(c),
{
    c == ' ' || c == '\n' || c == '\r' || c == ',' || c == ';' || c == '/'
}

fn is_quote_char(c: char) -> (b: bool)
    ensures
        b == is_quote(c),
{
    c == '`' || c == '"' || c == '\''
}

fn is_word_and(buf: &Vec<char>) -> (b: bool)
    ensures
        b == (buf@ == word_and()),
{
    let b = buf.len() == 3 && buf[0] == 'a' && buf[1] == 'n' && buf[2] == 'd';
    assert(b ==> buf@ =~= word_and());
    b
}

/// Emits the token in `buf`, unless it is empty or the word "and".
fn emit(result: &mut Vec<String>, buf: &Vec<char>)
    ensures
        texts(final(result)@) == flush(texts(old(result)@), buf@),
{
    if buf.len() > 0 && !is_word_and(buf) {
        let n = buf.len();
        let token = if n >= 2 && is_quote_char(buf[0]) && buf[n - 1] == buf[0] {
            string_of_range(buf, 1, n - 1)
        } else {
            assert(buf@.subrange(0, n as int) == buf@);
            string_of_range(buf, 0, n)
        };
        result.push(token);
    }
}

/// Splits the given characters into tokens.
pub fn parse_tokens(chars: &Vec<char>) -> (result: Vec<String>)
    ensures
        texts(result@) == tokens_of(chars@),
{
    let mut result: Vec<String> = Vec::new();
    let mut buf: Vec<char> = Vec::new();
    let mut quoted: Option<char> = None;
    assert(texts(result@) =~= Seq::<Seq<char>>::empty());
    let mut i: usize = 0;
    while i < chars.len()
        invariant
            i <= chars.len(),
            scan(scan_start(), chars@.take(i as int)) == (Scan {
                tokens: texts(result@),
                buf: buf@,
                quoted,
            }),
        decreases chars.len() - i,
    {
        let c = chars[i];
        proof {
            let next = chars@.take(i + 1);
            assert(next.drop_last() == chars@.take(i as int));
        }
        if quoted.is_none() && is_separator_char(c) {
            emit(&mut result, &buf);
            buf = Vec::new();
        } else if quoted.is_none() && is_quote_char(c) {
            quoted = Some(c);
            buf.push(c);
        } else if quoted.is_none() && c == '(' {
            quoted = Some(')');
            buf.push(c);
        } else if quoted.is_none() && c == '[' {
            quoted = Some(']');
            buf.push(c);
        } else {
            buf.push(c);
            if quoted == Some(c) {
                quoted = None;
            }
        }
        i += 1;
    }
    assert(chars@.take(i as int) == chars@);
    emit(&mut result, &buf);
    result
}

/// Tests whether a trimmed field stands for "not applicable".
fn not_applicable(field: &Vec<char>) -> (b: bool)
    ensures
        b == is_not_applicable(field@),
{
    let text = string_of(field);
    let upper = to_uppercase(text.as_str());
    let up = chars_of(upper.as_str());
    let na = up.len() == 2 && up[0] == 'N' && up[1] == 'A';
    let n_a = up.len() == 3 && up[0] == 'N' && up[1] == '/' && up[2] == 'A';
    assert(na ==> up@ =~= seq!['N', 'A']);
    assert(n_a ==> up@ =~= seq!['N', '/', 'A']);
    na || n_a
}

/// Splits a free-text field into its tokens.
///
/// The field is trimmed first. A field that reads "NA" or "N/A", in any case,
/// has no tokens. Tokens are separated by space, newline, carriage return,
/// comma, semicolon, slash and the word "and". A token in backticks or quotes
/// is taken whole and loses the quotes; one in round or square brackets is
/// taken whole and keeps them.
pub fn parse_multiple(input: &str) -> (result: Vec<String>)
    ensures
        texts(result@) == parsed_field(input@),
{
    let chars = chars_of(input);
    let field = trim(&chars);
    if not_applicable(&field) {
        let result: Vec<String> = Vec::new();
        return result;
    }
    parse_tokens(&field)
}

} // verus!

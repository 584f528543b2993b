//! The tokenizer that cuts a command line into the executable and its
//! arguments.
//!
//! Tokens are separated by whitespace: the space, the tab, the line feed,
//! the form feed and the carriage return. A single or double quote opens a
//! quoted span that the same quote character closes; inside it whitespace is
//! part of the token. Quote characters stay in the token as they were written.

use vstd::prelude::*;
use crate::text::{chars_of, text_of};

verus! {

/// What the tokenizer knows after reading a prefix of the command line.
pub struct Scan {
    /// The tokens that were closed by whitespace.
    pub tokens: Seq<Seq<char>>,
    /// The characters of the token being read.
    pub current: Seq<char>,
    /// Whether a quoted span is open.
    pub in_quotes: bool,
    /// The quote character seen last.
    pub quote: char,
}

/// A character is a quote mark if it is `'` or `"`.
pub open spec fn is_quote(c: char) -> bool {
    c == '\'' || c == '"'
}

/// The characters that part tokens outside a quoted span: the space, the
/// tab, the line feed, the form feed and the carriage return.
pub open spec fn is_separator(c: char) -> bool {
    c == ' ' || c == '\t' || c == '\n' || c == '\x0C' || c == '\r'
}

/// The state before any character is read.
pub open spec fn scan_start() -> Scan {
    Scan { tokens: Seq::empty(), current: Seq::empty(), in_quotes: false, quote: '\0' }
}

/// The effect of one character on the tokenizer's state.
pub open spec fn scan_step(s: Scan, c: char) -> Scan {
    if is_quote(c) && (!s.in_quotes || c == s.quote) {
        Scan { current: s.current.push(c), in_quotes: !s.in_quotes, quote: c, ..s }
    } else if is_separator(c) && !s.in_quotes {
        if s.current.len() > 0 {
            Scan { tokens: s.tokens.push(s.current), current: Seq::empty(), ..s }
        } else {
            s
        }
    } else {
        Scan { current: s.current.push(c), ..s }
    }
}

/// The state after reading all of `chars`, from left to right.
pub open spec fn scan(chars: Seq<char>) -> Scan
    decreases chars.len(),
{
    if chars.len() == 0 {
        scan_start()
    } else {
        scan_step(scan(chars.drop_last()), chars.last())
    }
}

/// The tokens of a command line: those closed by whitespace, and the one that
/// the end of the line closes, if it is not empty.
pub open spec fn tokens_of(chars: Seq<char>) -> Seq<Seq<char>> {
    let s = scan(chars);
    if s.current.len() > 0 {
        s.tokens.push(s.current)
    } else {
        s.tokens
    }
}

/// No token that the tokenizer has closed is empty.
pub proof fn lemma_closed_tokens_nonempty(chars: Seq<char>)
    ensures
        forall|i: int| 0 <= i < scan(chars).tokens.len() ==> #[trigger] scan(chars).tokens[i].len() > 0,
    decreases chars.len(),
{
    if chars.len() > 0 {
        lemma_closed_tokens_nonempty(chars.drop_last());
        let before = scan(chars.drop_last());
        let after = scan(chars);
        assert(after == scan_step(before, chars.last()));
        assert forall|i: int| 0 <= i < after.tokens.len() implies #[trigger] after.tokens[i].len()
            > 0 by {
            if i < before.tokens.len() {
                assert(after.tokens[i] == before.tokens[i]);
            }
        }
    }
}

/// The tokens written one after the other with a single space between them.
pub open spec fn joined(tokens: Seq<Seq<char>>) -> Seq<char>
    decreases tokens.len(),
{
    if tokens.len() == 0 {
        Seq::empty()
    } else if tokens.len() == 1 {
        tokens[0]
    } else {
        joined(tokens.drop_last()).push(' ') + tokens.last()
    }
}

/// A text is whole if the tokenizer reads it as one unfinished token: it is
/// not empty and no whitespace in it stands outside a quoted span.
pub open spec fn is_whole(text: Seq<char>) -> bool {
    &&& text.len() > 0
    &&& scan(text).tokens.len() == 0
    &&& scan(text).current == text
}

/// A whole text whose quoted spans are all closed.
pub open spec fn is_closed(text: Seq<char>) -> bool {
    is_whole(text) && !scan(text).in_quotes
}

/// What the tokenizer holds is made of whole texts: each token it has closed
/// is whole with its quoted spans closed, and the token being read is read
/// alone as it is read in its place.
pub proof fn lemma_scan_holds_whole_texts(chars: Seq<char>)
    ensures
        forall|i: int| 0 <= i < scan(chars).tokens.len() ==> is_closed(#[trigger] scan(chars).tokens[i]),
        scan(scan(chars).current).tokens.len() == 0,
        scan(scan(chars).current).current == scan(chars).current,
        scan(scan(chars).current).in_quotes == scan(chars).in_quotes,
        scan(chars).in_quotes ==> scan(scan(chars).current).quote == scan(chars).quote,
    decreases chars.len(),
{
    if chars.len() > 0 {
        lemma_scan_holds_whole_texts(chars.drop_last());
        let before = scan(chars.drop_last());
        let c = chars.last();
        let after = scan(chars);
        assert(after == scan_step(before, c));
        let alone = scan(before.current);
        if is_quote(c) && (!before.in_quotes || c == before.quote) {
            assert(after.current.drop_last() =~= before.current);
            assert(scan(after.current) == scan_step(alone, c));
        } else if is_separator(c) && !before.in_quotes {
            if before.current.len() > 0 {
                assert(is_closed(before.current));
                assert forall|i: int| 0 <= i < after.tokens.len() implies is_closed(
                    #[trigger] after.tokens[i],
                ) by {
                    if i < before.tokens.len() {
                        assert(after.tokens[i] == before.tokens[i]);
                    }
                }
            }
        } else {
            assert(after.current.drop_last() =~= before.current);
            assert(scan(after.current) == scan_step(alone, c));
        }
    }
}

/// Reading a text behind a prefix that ends outside a token and outside a
/// quoted span gives what reading the text alone gives, behind the tokens of
/// the prefix.
pub proof fn lemma_scan_behind(prefix: Seq<char>, text: Seq<char>)
    requires
        scan(prefix).current.len() == 0,
        !scan(prefix).in_quotes,
    ensures
        scan(prefix + text).tokens == scan(prefix).tokens + scan(text).tokens,
        scan(prefix + text).current == scan(text).current,
        scan(prefix + text).in_quotes == scan(text).in_quotes,
        scan(text).in_quotes ==> scan(prefix + text).quote == scan(text).quote,
    decreases text.len(),
{
    if text.len() == 0 {
        assert(prefix + text =~= prefix);
        assert(scan(prefix).tokens + scan(text).tokens =~= scan(prefix).tokens);
        assert(scan(prefix).current =~= scan(text).current);
    } else {
        let front = text.drop_last();
        let c = text.last();
        lemma_scan_behind(prefix, front);
        assert((prefix + text).drop_last() =~= prefix + front);
        assert((prefix + text).last() == c);
        let a = scan(prefix + front);
        let b = scan(front);
        assert(scan(prefix + text) == scan_step(a, c));
        assert(scan(text) == scan_step(b, c));
        assert(scan_step(a, c).tokens =~= scan(prefix).tokens + scan_step(b, c).tokens);
    }
}

/// Reading whole texts joined by single spaces gives them back: all but the
/// last as closed tokens, the last as the token being read.
pub proof fn lemma_scan_joined(tokens: Seq<Seq<char>>)
    requires
        tokens.len() > 0,
        is_whole(tokens.last()),
        forall|i: int| 0 <= i < tokens.len() - 1 ==> is_closed(#[trigger] tokens[i]),
    ensures
        scan(joined(tokens)).tokens == tokens.drop_last(),
        scan(joined(tokens)).current == tokens.last(),
        scan(joined(tokens)).in_quotes == scan(tokens.last()).in_quotes,
    decreases tokens.len(),
{
    if tokens.len() == 1 {
        assert(tokens.drop_last() =~= scan(tokens[0]).tokens);
    } else {
        let front = tokens.drop_last();
        assert(is_closed(tokens[tokens.len() - 2]));
        assert(front.last() == tokens[tokens.len() - 2]);
        assert forall|i: int| 0 <= i < front.len() - 1 implies is_closed(#[trigger] front[i]) by {
            assert(front[i] == tokens[i]);
        }
        lemma_scan_joined(front);
        let prefix = joined(front).push(' ');
        assert(prefix.drop_last() =~= joined(front));
        assert(scan(prefix) == scan_step(scan(joined(front)), ' '));
        assert(scan(prefix).tokens =~= front);
        lemma_scan_behind(prefix, tokens.last());
        assert(scan(prefix).tokens + scan(tokens.last()).tokens =~= front);
    }
}

/// Tokenizing is stable: the tokens of a command line, written one after
/// the other with a single space between them, are tokenized as themselves.
pub proof fn law_tokens_joined_tokenize_alike(chars: Seq<char>)
    ensures
        tokens_of(joined(tokens_of(chars))) == tokens_of(chars),
{
    let s = scan(chars);
    let tokens = tokens_of(chars);
    lemma_scan_holds_whole_texts(chars);
    if tokens.len() > 0 {
        if s.current.len() > 0 {
            assert(tokens.last() == s.current);
            assert forall|i: int| 0 <= i < tokens.len() - 1 implies is_closed(#[trigger] tokens[i]) by {
                assert(tokens[i] == s.tokens[i]);
            }
            lemma_scan_joined(tokens);
            assert(tokens.drop_last().push(tokens.last()) =~= tokens);
        } else {
            assert(is_closed(s.tokens[s.tokens.len() - 1]));
            assert forall|i: int| 0 <= i < tokens.len() - 1 implies is_closed(#[trigger] tokens[i]) by {
                assert(tokens[i] == s.tokens[i]);
            }
            lemma_scan_joined(tokens);
            assert(tokens.drop_last().push(tokens.last()) =~= tokens);
        }
    }
}

/// Whether a character parts tokens outside a quoted span.
pub fn separates(c: char) -> (yes: bool)
    ensures
        yes == is_separator(c),
{
    c == ' ' || c == '\t' || c == '\n' || c == '\x0C' || c == '\r'
}

/// Splits a command line into its tokens.
pub fn split(command: String) -> (result: Vec<String>)
    ensures
        text_of(result@) == tokens_of(command@),
        forall|i: int| 0 <= i < result.len() ==> (#[trigger] result[i])@.len() > 0,
{
    let chars = chars_of(command.as_str());
    let mut result: Vec<String> = Vec::new();
    let mut current = String::new();
    let mut filled: bool = false;
    let mut in_quotes: bool = false;
    let mut quote_char: char = '\0';
    let mut i: usize = 0;
    while i < chars.len()
        invariant
            i <= chars.len(),
            chars@ == command@,
            text_of(result@) == scan(chars@.take(i as int)).tokens,
            current@ == scan(chars@.take(i as int)).current,
            in_quotes == scan(chars@.take(i as int)).in_quotes,
            quote_char == scan(chars@.take(i as int)).quote,
            filled == (current@.len() > 0),
        decreases chars.len() - i,
    {
        let character: char = chars[i];
        proof {
            assert(chars@.take(i + 1).drop_last() =~= chars@.take(i as int));
            assert(chars@.take(i + 1).last() == character);
        }
        let ghost before = result@;
        if (character == '\'' || character == '"') && (!in_quotes || character == quote_char) {
            in_quotes = !in_quotes;
            quote_char = character;
            current.push(character);
            filled = true;
        } else if separates(character) && !in_quotes {
            if filled {
                let ghost closed = current@;
                result.push(current);
                current = String::new();
                filled = false;
                assert(text_of(result@) =~= text_of(before).push(closed));
            }
        } else {
            current.push(character);
            filled = true;
        }
        i += 1;
    }
    proof {
        assert(chars@.take(i as int) =~= chars@);
        lemma_closed_tokens_nonempty(command@);
    }
    if filled {
        let ghost before = result@;
        let ghost closed = current@;
        result.push(current);
        assert(text_of(result@) =~= text_of(before).push(closed));
    }
    assert forall|i: int| 0 <= i < result.len() implies (#[trigger] result[i])@.len() > 0 by {
        assert(text_of(result@)[i] == result[i]@);
    }
    result
}

/// The executable of a task and its arguments: the first token and the rest.
/// A task without a token names no executable.
pub fn command_of(task: String) -> (command: Option<(String, Vec<String>)>)
    ensures
        command is Some <==> tokens_of(task@).len() > 0,
        match command {
            Some((program, arguments)) => {
                &&& program@ == tokens_of(task@)[0]
                &&& text_of(arguments@) == tokens_of(task@).drop_first()
            },
            None => true,
        },
{
    let mut tokens = split(task);
    if tokens.len() == 0 {
        return None;
    }
    let ghost all = tokens@;
    let program = tokens.remove(0);
    proof {
        assert(text_of(all)[0] == all[0]@);
        assert(text_of(tokens@) =~= text_of(all).drop_first());
    }
    Some((program, tokens))
}

} // verus!

//! The lexer: query text in, tokens out.
//!
//! Classification looks at the first character of each run: a quote opens a
//! verbatim string, a letter opens a bare word, a digit (or a dash followed
//! by a digit) opens a number or date, a dash followed by a letter escapes
//! the following word so that reserved words lose their meaning, and the
//! operator characters combine with a following `=` (or a second `^`) into
//! the two-character operators. Whitespace only separates tokens.

use vstd::prelude::*;
use crate::text::{is_letter_char, is_space_char, is_digit_char};
use crate::token::{spec_token_from_char, spec_token_from_text, Token, TokenModel};

verus! {

/// Where a token's text stops: at the closing quote, at a word boundary, or
/// at a number boundary.
#[derive(Debug, Clone, Copy, PartialEq, Eq, Structural)]
pub enum EndKind {
    Quote,
    Word,
    Num,
}

/// Whether character `c` ends a token of the given kind.
pub open spec fn end_holds(kind: EndKind, c: char) -> bool {
    match kind {
        EndKind::Quote => c == '"',
        EndKind::Word => is_space_char(c) || c == ')' || c == '(',
        EndKind::Num => is_letter_char(c) || is_space_char(c) || c == ')',
    }
}

/// First position at or after `i` whose character ends a token of kind
/// `kind`, or the end of input.
pub open spec fn scan_tok(s: Seq<char>, i: int, kind: EndKind) -> int
    decreases s.len() - i,
{
    if i < 0 || i >= s.len() {
        s.len() as int
    } else if end_holds(kind, s[i]) {
        i
    } else {
        scan_tok(s, i + 1, kind)
    }
}

/// First position at or after `i` holding a non-whitespace character, or
/// the end of input.
pub open spec fn skip_ws(s: Seq<char>, i: int) -> int
    decreases s.len() - i,
{
    if i < 0 || i >= s.len() {
        s.len() as int
    } else if !is_space_char(s[i]) {
        i
    } else {
        skip_ws(s, i + 1)
    }
}

/// A scan stays between its start and the end of input.
pub proof fn lemma_scan_tok_bounds(s: Seq<char>, i: int, kind: EndKind)
    requires
        0 <= i <= s.len(),
    ensures
        i <= scan_tok(s, i, kind) <= s.len(),
    decreases s.len() - i,
{
    if i < s.len() && !end_holds(kind, s[i]) {
        lemma_scan_tok_bounds(s, i + 1, kind);
    }
}

/// Skipping whitespace stays between its start and the end of input.
pub proof fn lemma_skip_ws_bounds(s: Seq<char>, i: int)
    requires
        0 <= i <= s.len(),
    ensures
        i <= skip_ws(s, i) <= s.len(),
        skip_ws(s, i) < s.len() ==> !is_space_char(s[skip_ws(s, i)]),
    decreases s.len() - i,
{
    if i < s.len() && is_space_char(s[i]) {
        lemma_skip_ws_bounds(s, i + 1);
    }
}

/// Nothing before a scan's stopping point ends the token, and the
/// stopping point itself does (unless it is the end of input).
pub proof fn lemma_scan_tok_hits(s: Seq<char>, i: int, kind: EndKind)
    requires
        0 <= i <= s.len(),
    ensures
        forall|k: int| i <= k < scan_tok(s, i, kind) ==> !end_holds(kind, s[k]),
        scan_tok(s, i, kind) < s.len() ==> end_holds(kind, s[scan_tok(s, i, kind)]),
    decreases s.len() - i,
{
    if i < s.len() && !end_holds(kind, s[i]) {
        lemma_scan_tok_hits(s, i + 1, kind);
    }
}

/// A scan lands exactly on the first position that ends the token.
pub proof fn lemma_scan_tok_at(s: Seq<char>, i: int, j: int, kind: EndKind)
    requires
        0 <= i <= j <= s.len(),
        forall|k: int| i <= k < j ==> !end_holds(kind, #[trigger] s[k]),
        j < s.len() ==> end_holds(kind, s[j]),
    ensures
        scan_tok(s, i, kind) == j,
    decreases j - i,
{
    if i < j {
        lemma_scan_tok_at(s, i + 1, j, kind);
    }
}

/// Everything skipped as whitespace really is whitespace.
pub proof fn lemma_skip_ws_spaces(s: Seq<char>, i: int)
    requires
        0 <= i <= s.len(),
    ensures
        forall|k: int| i <= k < skip_ws(s, i) ==> is_space_char(s[k]),
    decreases s.len() - i,
{
    if i < s.len() && is_space_char(s[i]) {
        lemma_skip_ws_spaces(s, i + 1);
    }
}

/// One lexing step: the token that starts at position `i`, and the position
/// right after it.
pub struct TokStep {
    pub tok: TokenModel,
    pub next: int,
}

/// The token beginning at position `i`, which must hold a non-whitespace
/// character.
pub open spec fn tok_at(s: Seq<char>, i: int) -> TokStep
    recommends
        0 <= i < s.len(),
        !is_space_char(s[i]),
{
    let c = s[i];
    if c == '>' || c == '<' || c == '^' || c == '!' {
        if i + 1 < s.len() && s[i + 1] == '=' {
            TokStep { tok: spec_token_from_text(s.subrange(i, i + 2)), next: i + 2 }
        } else if c == '^' && i + 1 < s.len() && s[i + 1] == '^' {
            TokStep { tok: TokenModel::NLIKE, next: i + 2 }
        } else {
            TokStep { tok: spec_token_from_char(c), next: i + 1 }
        }
    } else if c == '"' {
        let j = scan_tok(s, i + 1, EndKind::Quote);
        TokStep {
            tok: TokenModel::Str(s.subrange(i + 1, j)),
            next: if j < s.len() {
                j + 1
            } else {
                s.len() as int
            },
        }
    } else if c == '-' && i + 1 < s.len() && is_letter_char(s[i + 1]) {
        let j = scan_tok(s, i + 1, EndKind::Word);
        TokStep { tok: TokenModel::Str(s.subrange(i + 1, j)), next: j }
    } else if is_letter_char(c) {
        let j = scan_tok(s, i + 1, EndKind::Word);
        TokStep { tok: spec_token_from_text(s.subrange(i, j)), next: j }
    } else if is_digit_char(c) || c == '-' {
        let j = scan_tok(s, i + 1, EndKind::Num);
        TokStep { tok: spec_token_from_text(s.subrange(i, j)), next: j }
    } else {
        TokStep { tok: spec_token_from_char(c), next: i + 1 }
    }
}

/// A lexing step starting inside the input always moves forward and stays
/// inside it.
pub proof fn lemma_tok_at_next(s: Seq<char>, i: int)
    requires
        0 <= i < s.len(),
    ensures
        i < tok_at(s, i).next <= s.len(),
{
    lemma_scan_tok_bounds(s, i + 1, EndKind::Quote);
    lemma_scan_tok_bounds(s, i + 1, EndKind::Word);
    lemma_scan_tok_bounds(s, i + 1, EndKind::Num);
}

/// The sequence of tokens lexed from position `pos` to the end of `s`.
pub open spec fn spec_lex_from(s: Seq<char>, pos: int) -> Seq<TokenModel>
    decreases s.len() - pos,
    when 0 <= pos <= s.len()
    via spec_lex_from_dec
{
    let i = skip_ws(s, pos);
    if i >= s.len() {
        Seq::empty()
    } else {
        let step = tok_at(s, i);
        seq![step.tok] + spec_lex_from(s, step.next)
    }
}

#[via_fn]
proof fn spec_lex_from_dec(s: Seq<char>, pos: int) {
    lemma_skip_ws_bounds(s, pos);
    let i = skip_ws(s, pos);
    if i < s.len() {
        lemma_tok_at_next(s, i);
    }
}

/// Every token of the query text, in order.
pub open spec fn spec_lex(s: Seq<char>) -> Seq<TokenModel> {
    spec_lex_from(s, 0)
}

/// The lexer's cursor over the query text: everything before `pos` has been
/// consumed.
pub struct Lexer<'a> {
    content: &'a str,
    pos: usize,
}

impl<'a> Lexer<'a> {
    /// The text this lexer walks.
    pub closed spec fn spec_content(&self) -> Seq<char> {
        self.content@
    }

    /// How far the lexer has read.
    pub closed spec fn spec_pos(&self) -> int {
        self.pos as int
    }

    /// The cursor never leaves the text.
    pub closed spec fn wf(&self) -> bool {
        self.pos <= self.content@.len()
    }

    /// Start lexing `input` from its beginning.
    pub fn new(input: &'a str) -> (r: Lexer<'a>)
        ensures
            r.wf(),
            r.spec_content() == input@,
            r.spec_pos() == 0,
    {
        Lexer { content: input, pos: 0 }
    }

    /// Produce the next token, or nothing at the end of input.
    ///
    /// The tokens still to come are exactly `spec_lex_from` at the cursor,
    /// so each call peels off the head of that sequence.
    #[verifier::loop_isolation(false)]
    pub fn next(&mut self) -> (r: Option<Token>)
        requires
            old(self).wf(),
        ensures
            final(self).wf(),
            final(self).spec_content() == old(self).spec_content(),
            match r {
                None => {
                    &&& spec_lex_from(old(self).spec_content(), old(self).spec_pos())
                        == Seq::<TokenModel>::empty()
                    &&& spec_lex_from(old(self).spec_content(), final(self).spec_pos())
                        == Seq::<TokenModel>::empty()
                    &&& old(self).spec_pos() <= final(self).spec_pos()
                },
                Some(t) => {
                    &&& spec_lex_from(old(self).spec_content(), old(self).spec_pos()) == seq![t@]
                        + spec_lex_from(old(self).spec_content(), final(self).spec_pos())
                    &&& old(self).spec_pos() < final(self).spec_pos()
                },
            },
    {
        let ghost s = self.content@;
        let ghost pos0 = self.pos as int;
        proof {
            lemma_skip_ws_bounds(s, pos0);
        }
        let len = self.content.unicode_len();
        // Skip insignificant whitespace.
        let i = skip_spaces(self.content, self.pos);
        if i == len {
            self.pos = i;
            return None;
        }
        assert(i == skip_ws(s, pos0));
        let ghost step = tok_at(s, i as int);
        proof {
            lemma_tok_at_next(s, i as int);
        }
        let c = self.content.get_char(i);
        let r;
        if c == '>' || c == '<' || c == '^' || c == '!' {
            if i + 1 < len && self.content.get_char(i + 1) == '=' {
                let pair = self.content.substring_char(i, i + 2);
                self.pos = i + 2;
                r = Token::from_text(pair);
            } else if c == '^' && i + 1 < len && self.content.get_char(i + 1) == '^' {
                self.pos = i + 2;
                r = Token::NLIKE;
            } else {
                self.pos = i + 1;
                r = Token::from_char(c);
            }
        } else if c == '"' {
            let j = read_until(self.content, i + 1, EndKind::Quote);
            let text = self.content.substring_char(i + 1, j);
            self.pos = if j < len {
                j + 1
            } else {
                len
            };
            r = Token::Str(text.to_owned());
        } else if c == '-' && i + 1 < len && is_letter_at(self.content, i + 1) {
            // An escaped keyword: drop the dash, keep the word as plain text.
            let j = read_until(self.content, i + 1, EndKind::Word);
            let text = self.content.substring_char(i + 1, j);
            self.pos = j;
            r = Token::Str(text.to_owned());
        } else if is_letter_at(self.content, i) {
            let j = read_until(self.content, i + 1, EndKind::Word);
            let text = self.content.substring_char(i, j);
            self.pos = j;
            r = Token::from_text(text);
        } else if is_digit_at(self.content, i) || c == '-' {
            let j = read_until(self.content, i + 1, EndKind::Num);
            let text = self.content.substring_char(i, j);
            self.pos = j;
            r = Token::from_text(text);
        } else {
            self.pos = i + 1;
            r = Token::from_char(c);
        }
        proof {
            assert(r@ == step.tok);
            assert(self.pos as int == step.next);
        }
        Some(r)
    }

    /// Lex the whole of `input` into a vector of tokens.
    #[verifier::loop_isolation(false)]
    pub fn tokens(input: &str) -> (r: Vec<Token>)
        ensures
            r@.map_values(|t: Token| t@) == spec_lex(input@),
    {
        let ghost s = input@;
        let mut lx = Lexer::new(input);
        let mut out: Vec<Token> = Vec::new();
        let mut done = false;
        while !done
            invariant
                lx.wf(),
                lx.spec_content() == s,
                out@.map_values(|t: Token| t@) + spec_lex_from(s, lx.spec_pos()) == spec_lex(s),
                done ==> spec_lex_from(s, lx.spec_pos()) == Seq::<TokenModel>::empty(),
            decreases s.len() - lx.spec_pos() + if done {
                0int
            } else {
                1int
            },
    {
            let ghost m0 = out@.map_values(|x: Token| x@);
            match lx.next() {
                Some(t) => {
                    proof {
                        let rest = spec_lex_from(s, lx.spec_pos());
                        assert(out@.push(t).map_values(|x: Token| x@) =~= m0.push(t@));
                        assert(m0.push(t@) + rest =~= m0 + (seq![t@] + rest));
                    }
                    out.push(t);
                },
                None => {
                    done = true;
                },
            }
        }
        proof {
            assert(out@.map_values(|t: Token| t@) + spec_lex_from(s, lx.spec_pos()) =~= out@
                .map_values(|t: Token| t@));
        }
        out
    }
}

/// Whether the character at `i` is an ASCII letter.
fn is_letter_at(s: &str, i: usize) -> (r: bool)
    requires
        i < s@.len(),
    ensures
        r == is_letter_char(s@[i as int]),
{
    let u = s.get_char(i) as u32;
    (97 <= u && u <= 122) || (65 <= u && u <= 90)
}

/// Whether the character at `i` is an ASCII digit.
fn is_digit_at(s: &str, i: usize) -> (r: bool)
    requires
        i < s@.len(),
    ensures
        r == is_digit_char(s@[i as int]),
{
    let u = s.get_char(i) as u32;
    48 <= u && u <= 57
}

/// Walk forward from `from` to the first non-whitespace character, or to
/// the end of input.
#[verifier::loop_isolation(false)]
fn skip_spaces(s: &str, from: usize) -> (r: usize)
    requires
        from <= s@.len(),
    ensures
        r == skip_ws(s@, from as int),
        from <= r <= s@.len(),
{
    proof {
        lemma_skip_ws_bounds(s@, from as int);
    }
    let len = s.unicode_len();
    let mut j = from;
    loop
        invariant
            from <= j <= len,
            skip_ws(s@, from as int) == skip_ws(s@, j as int),
        decreases len - j,
    {
        if j == len {
            return j;
        }
        let c = s.get_char(j);
        if !(c == ' ' || c == '\t' || c == '\n' || c == '\r') {
            return j;
        }
        j = j + 1;
    }
}

/// Walk forward from `from` to the first character that ends a token of
/// kind `end`, or to the end of input.
#[verifier::loop_isolation(false)]
fn read_until(s: &str, from: usize, end: EndKind) -> (r: usize)
    requires
        from <= s@.len(),
    ensures
        r == scan_tok(s@, from as int, end),
        from <= r <= s@.len(),
{
    proof {
        lemma_scan_tok_bounds(s@, from as int, end);
    }
    let len = s.unicode_len();
    let mut j = from;
    loop
        invariant
            from <= j <= len,
            scan_tok(s@, from as int, end) == scan_tok(s@, j as int, end),
        decreases len - j,
    {
        if j == len {
            return j;
        }
        let c = s.get_char(j);
        let stop = match end {
            EndKind::Quote => c == '"',
            EndKind::Word => c == ' ' || c == '\t' || c == '\n' || c == '\r' || c == ')' || c
                == '(',
            EndKind::Num => {
                let u = c as u32;
                (97 <= u && u <= 122) || (65 <= u && u <= 90) || c == ' ' || c == '\t' || c == '\n'
                    || c == '\r' || c == ')'
            },
        };
        if stop {
            return j;
        }
        j = j + 1;
    }
}

} // verus!

verus! {

/// Every character of `s` is an ASCII letter or whitespace.
pub open spec fn only_letters_and_spaces(s: Seq<char>) -> bool {
    forall|k: int| 0 <= k < s.len() ==> is_letter_char(#[trigger] s[k]) || is_space_char(s[k])
}

/// `[i, j)` is a maximal run of letters in `s`: letters throughout, with
/// no letter immediately before or after.
pub open spec fn letter_run(s: Seq<char>, i: int, j: int) -> bool {
    &&& 0 <= i < j <= s.len()
    &&& (i == 0 || !is_letter_char(s[i - 1]))
    &&& (j == s.len() || !is_letter_char(s[j]))
    &&& forall|k: int| i <= k < j ==> is_letter_char(#[trigger] s[k])
}

/// No maximal letter run of `s` spells a reserved word, in any letter
/// case.
pub open spec fn no_reserved_words(s: Seq<char>) -> bool {
    forall|i: int, j: int|
        #[trigger] letter_run(s, i, j) ==> crate::text::to_lower(s.subrange(i, j)) != seq![
            'a',
            'n',
            'd',
        ] && crate::text::to_lower(s.subrange(i, j)) != seq!['o', 'r']
}

/// The texts of the whitespace-separated words of `s`, from `pos` on.
pub open spec fn words_from(s: Seq<char>, pos: int) -> Seq<Seq<char>>
    decreases s.len() - pos,
    when 0 <= pos <= s.len()
    via words_from_dec
{
    let i = skip_ws(s, pos);
    if i >= s.len() {
        Seq::empty()
    } else {
        let j = scan_tok(s, i + 1, EndKind::Word);
        seq![s.subrange(i, j)] + words_from(s, j)
    }
}

#[via_fn]
proof fn words_from_dec(s: Seq<char>, pos: int) {
    lemma_skip_ws_bounds(s, pos);
    let i = skip_ws(s, pos);
    if i < s.len() {
        lemma_scan_tok_bounds(s, i + 1, EndKind::Word);
    }
}

/// Over text of letters and spaces with no reserved words, the lexer
/// yields exactly one string token per word. The position must not split
/// a word: it sits at the start, after a non-letter, or before whitespace
/// or the end.
pub proof fn lemma_lex_letters_from(s: Seq<char>, pos: int)
    requires
        only_letters_and_spaces(s),
        no_reserved_words(s),
        0 <= pos <= s.len(),
        pos == 0 || !is_letter_char(s[pos - 1]) || pos == s.len() || is_space_char(s[pos]),
    ensures
        spec_lex_from(s, pos) == words_from(s, pos).map_values(|w: Seq<char>| TokenModel::Str(w)),
    decreases s.len() - pos,
{
    lemma_skip_ws_bounds(s, pos);
    lemma_skip_ws_spaces(s, pos);
    let i = skip_ws(s, pos);
    if i >= s.len() {
        assert(words_from(s, pos).map_values(|w: Seq<char>| TokenModel::Str(w))
            =~= Seq::<TokenModel>::empty());
    } else {
        assert(!is_space_char(s[i]));
        assert(is_letter_char(s[i]));
        let c = s[i];
        assert(c != '>' && c != '<' && c != '^' && c != '!' && c != '"' && c != '-');
        let j = scan_tok(s, i + 1, EndKind::Word);
        lemma_scan_tok_bounds(s, i + 1, EndKind::Word);
        lemma_scan_tok_hits(s, i + 1, EndKind::Word);
        let word = s.subrange(i, j);
        assert(forall|k: int| i <= k < j ==> is_letter_char(#[trigger] s[k])) by {
            assert(forall|k: int|
                i + 1 <= k < j ==> !end_holds(EndKind::Word, #[trigger] s[k]) && !is_space_char(
                    s[k],
                ) && is_letter_char(s[k]));
        }
        assert(j == s.len() || !is_letter_char(s[j])) by {
            if j < s.len() {
                assert(end_holds(EndKind::Word, s[j]));
            }
        }
        assert(i == 0 || !is_letter_char(s[i - 1])) by {
            if i > 0 {
                if i > pos {
                    assert(is_space_char(s[i - 1]));
                } else {
                    assert(i == pos);
                }
            }
        }
        assert(letter_run(s, i, j));
        assert(word.len() >= 1);
        assert(forall|k: int| 0 <= k < word.len() ==> is_letter_char(#[trigger] word[k]));
        // A word of letters is none of the operator spellings.
        assert(word != seq!['>', '=']) by {
            if word == seq!['>', '='] {
                assert(is_letter_char('>'));
            }
        }
        assert(word != seq!['<', '=']) by {
            if word == seq!['<', '='] {
                assert(is_letter_char('<'));
            }
        }
        assert(word != seq!['!', '=']) by {
            if word == seq!['!', '='] {
                assert(is_letter_char('!'));
            }
        }
        assert(word != seq!['^', '^']) by {
            if word == seq!['^', '^'] {
                assert(is_letter_char('^'));
            }
        }
        assert(spec_token_from_text(word) == TokenModel::Str(word));
        // The step after the word starts before whitespace or at the end.
        assert(j == s.len() || is_space_char(s[j])) by {
            if j < s.len() {
                assert(end_holds(EndKind::Word, s[j]));
                assert(!is_letter_char(s[j]));
                assert(is_letter_char(s[j]) || is_space_char(s[j]));
            }
        }
        lemma_lex_letters_from(s, j);
        assert(spec_lex_from(s, pos) =~= seq![TokenModel::Str(word)] + spec_lex_from(s, j));
        assert(words_from(s, pos).map_values(|w: Seq<char>| TokenModel::Str(w)) =~= seq![
            TokenModel::Str(word),
        ] + words_from(s, j).map_values(|w: Seq<char>| TokenModel::Str(w)));
    }
}

} // verus!

//! The alphabet of the query language.
//!
//! A token is a comparison operator, a logical operator, a parenthesis,
//! a literal (string, number or date), the end-of-input marker, or
//! `Unexpected`, which carries text the lexer could not classify.

use vstd::prelude::*;
use crate::date::spec_parse_date;
use crate::date::parse_date_text;
use crate::text::{
    pow10,
    all_digits,
    char_to_string,
    digits_val,
    digit_val,
    find_char,
    find_from,
    is_digit_char,
    is_letter_char,
    lemma_digits_val_last,
    lemma_digits_val_prefix,
    lemma_trim_suffix,
    lower_char_exec,
    scan_back_zeros,
    to_lower,
    trim_trailing_zeros,
};

verus! {

/// The largest mantissa a number literal may carry: fifteen decimal digits.
pub open spec fn dec_limit() -> int {
    1000000000000000
}

/// A non-negative decimal number: `mantissa / 10^scale`.
///
/// Values are kept canonical — no trailing zero digits in the fraction —
/// so that two equal numbers are field-for-field equal.
#[derive(Debug, Clone, Copy, PartialEq, Eq, Structural)]
pub struct Decimal {
    pub mantissa: u64,
    pub scale: u32,
}

/// Mathematical model of a [`Decimal`].
pub struct DecimalModel {
    pub mantissa: int,
    pub scale: nat,
}

impl View for Decimal {
    type V = DecimalModel;

    open spec fn view(&self) -> DecimalModel {
        DecimalModel { mantissa: self.mantissa as int, scale: self.scale as nat }
    }
}

/// A decimal is well formed when its mantissa is at most fifteen digits,
/// its scale at most fifteen, and its fraction has no trailing zeros.
pub open spec fn dec_wf(d: DecimalModel) -> bool {
    0 <= d.mantissa < dec_limit() && d.scale <= 15 && (d.scale > 0 ==> d.mantissa % 10 != 0)
}

/// The number text `w` read as a canonical decimal: an optional single dot
/// splitting two digit groups, at least one digit in all, at most fifteen
/// significant digits once trailing fraction zeros are dropped.
pub open spec fn spec_parse_decimal(w: Seq<char>) -> Option<DecimalModel> {
    let dot = find_from(w, '.', 0);
    let int_part = w.subrange(0, dot);
    let frac = if dot < w.len() {
        w.subrange(dot + 1, w.len() as int)
    } else {
        Seq::<char>::empty()
    };
    if w.len() == 0 || find_from(w, '.', dot + 1) != w.len() || !all_digits(int_part)
        || !all_digits(frac) || int_part.len() + frac.len() < 1 {
        None
    } else {
        let frac_kept = trim_trailing_zeros(frac);
        let m = digits_val(int_part + frac_kept);
        let s = frac_kept.len();
        if m < dec_limit() && s <= 15 {
            Some(DecimalModel { mantissa: m, scale: s as nat })
        } else {
            None
        }
    }
}

/// The digit character for the value `d`.
pub open spec fn digit_char(d: int) -> char {
    ((48 + d) as u8) as char
}

/// The decimal digit string of the non-negative number `n`, most
/// significant digit first.
pub open spec fn spec_digits(n: int) -> Seq<char>
    decreases n,
{
    if n < 10 {
        seq![digit_char(n)]
    } else {
        spec_digits(n / 10).push(digit_char(n % 10))
    }
}

/// The digit string of `n` padded with leading zeros to exactly `width`
/// digits; only the lowest `width` digits of `n` appear.
pub open spec fn spec_digits_padded(n: int, width: nat) -> Seq<char>
    decreases width,
{
    if width == 0 {
        Seq::empty()
    } else {
        spec_digits_padded(n / 10, (width - 1) as nat).push(digit_char(n % 10))
    }
}

/// The canonical text of a decimal: the integer digits, and for a scaled
/// value a dot and exactly `scale` fraction digits.
pub open spec fn spec_render_decimal(d: DecimalModel) -> Seq<char> {
    if d.scale == 0 {
        spec_digits(d.mantissa)
    } else {
        spec_digits(d.mantissa / pow10(d.scale)) + seq!['.'] + spec_digits_padded(
            d.mantissa % pow10(d.scale),
            d.scale,
        )
    }
}

/// A rendered digit string is one or more digit characters.
pub proof fn lemma_spec_digits_chars(n: int)
    requires
        n >= 0,
    ensures
        all_digits(spec_digits(n)),
        spec_digits(n).len() >= 1,
        is_digit_char(spec_digits(n)[0]),
    decreases n,
{
    if n >= 10 {
        lemma_spec_digits_chars(n / 10);
    }
}

/// A padded digit string is exactly `width` digit characters.
pub proof fn lemma_spec_digits_padded_chars(n: int, width: nat)
    requires
        n >= 0,
    ensures
        all_digits(spec_digits_padded(n, width)),
        spec_digits_padded(n, width).len() == width,
    decreases width,
{
    if width > 0 {
        lemma_spec_digits_padded_chars(n / 10, (width - 1) as nat);
    }
}

/// Reading a rendered digit string back gives the number.
pub proof fn lemma_digits_val_of_spec_digits(n: int)
    requires
        n >= 0,
    ensures
        digits_val(spec_digits(n)) == n,
    decreases n,
{
    if n < 10 {
        assert(spec_digits(n).take(0) =~= Seq::<char>::empty());
        assert(digits_val(Seq::<char>::empty()) == 0);
        assert(spec_digits(n)[0] == digit_char(n));
        assert(digit_char(n) as u32 == 48 + n);
        assert(digit_val(digit_char(n)) == n);
    } else {
        lemma_digits_val_of_spec_digits(n / 10);
        assert(spec_digits(n).take(spec_digits(n).len() - 1) =~= spec_digits(n / 10));
        assert(digit_val(digit_char(n % 10)) == n % 10);
        assert(digits_val(spec_digits(n)) == digits_val(spec_digits(n / 10)) * 10 + n % 10);
    }
}

/// Reading a padded digit string back gives the number modulo ten to the
/// width.
pub proof fn lemma_digits_val_of_spec_digits_padded(n: int, width: nat)
    requires
        n >= 0,
    ensures
        digits_val(spec_digits_padded(n, width)) == n % pow10(width),
    decreases width,
{
    crate::text::lemma_pow10_mono(0, width);
    if width == 0 {
        assert(n % 1 == 0) by (nonlinear_arith);
    } else {
        let w1 = (width - 1) as nat;
        lemma_digits_val_of_spec_digits_padded(n / 10, w1);
        let s = spec_digits_padded(n, width);
        assert(s.take(s.len() - 1) =~= spec_digits_padded(n / 10, w1));
        lemma_spec_digits_padded_chars(n / 10, w1);
        assert(digits_val(s) == ((n / 10) % pow10(w1)) * 10 + n % 10);
        vstd::arithmetic::div_mod::lemma_breakdown(n, 10, pow10(w1));
        assert(n % (10 * pow10(w1)) == 10 * ((n / 10) % pow10(w1)) + n % 10);
        assert(10 * pow10(w1) == pow10(width));
    }
}

/// Reading the two digit groups of a concatenation.
pub proof fn lemma_digits_val_concat(a: Seq<char>, b: Seq<char>)
    ensures
        digits_val(a + b) == digits_val(a) * pow10(b.len()) + digits_val(b),
    decreases b.len(),
{
    if b.len() == 0 {
        assert(a + b =~= a);
    } else {
        let b1 = b.take(b.len() - 1);
        lemma_digits_val_concat(a, b1);
        assert((a + b).take((a + b).len() - 1) =~= a + b1);
        assert((a + b)[(a + b).len() - 1] == b[b.len() - 1]);
        assert((digits_val(a) * pow10(b1.len()) + digits_val(b1)) * 10 + digit_val(b[b.len() - 1])
            == digits_val(a) * (pow10(b1.len()) * 10) + (digits_val(b1) * 10 + digit_val(
            b[b.len() - 1],
        ))) by (nonlinear_arith);
        assert(pow10(b1.len()) * 10 == pow10(b.len()));
    }
}

/// A rendered decimal reads back as exactly the decimal it came from.
pub proof fn lemma_parse_render_decimal(d: DecimalModel)
    requires
        dec_wf(d),
    ensures
        spec_parse_decimal(spec_render_decimal(d)) == Some(d),
{
    let w = spec_render_decimal(d);
    if d.scale == 0 {
        lemma_spec_digits_chars(d.mantissa);
        lemma_digits_val_of_spec_digits(d.mantissa);
        lemma_no_dot_in_digits(spec_digits(d.mantissa), '.');
        assert(find_from(w, '.', 0) == w.len());
        assert(w.subrange(0, w.len() as int) =~= w);
        assert(trim_trailing_zeros(Seq::<char>::empty()) =~= Seq::<char>::empty());
        assert(w + Seq::<char>::empty() =~= w);
    } else {
        let p = pow10(d.scale);
        crate::text::lemma_pow10_mono(1, d.scale);
        let hi = spec_digits(d.mantissa / p);
        let lo = spec_digits_padded(d.mantissa % p, d.scale);
        lemma_spec_digits_chars(d.mantissa / p);
        lemma_spec_digits_padded_chars(d.mantissa % p, d.scale);
        lemma_no_dot_in_digits(hi, '.');
        lemma_no_dot_in_digits(lo, '.');
        // The one dot sits right after the integer digits.
        assert(w =~= (hi + seq!['.']) + lo);
        lemma_find_from_position(w, '.', hi.len() as int);
        assert(find_from(w, '.', 0) == hi.len());
        lemma_find_from_absent(w, '.', hi.len() + 1 as int);
        assert(w.subrange(0, hi.len() as int) =~= hi);
        assert(w.subrange(hi.len() + 1 as int, w.len() as int) =~= lo);
        // The fraction keeps its digits: its last one is not zero.
        assert(lo[lo.len() - 1] == digit_char((d.mantissa % p) % 10));
        crate::text::lemma_pow10_mono(0, (d.scale - 1) as nat);
        vstd::arithmetic::div_mod::lemma_mod_mod(d.mantissa, 10, pow10((d.scale - 1) as nat));
        assert(10 * pow10((d.scale - 1) as nat) == pow10(d.scale));
        assert((d.mantissa % p) % 10 == d.mantissa % 10);
        assert(digit_char(d.mantissa % 10) != '0') by {
            if digit_char(d.mantissa % 10) == '0' {
                vstd::utf8::char_u32_cast(digit_char(d.mantissa % 10), (48 + d.mantissa % 10) as u32);
                vstd::utf8::char_u32_cast('0', 48);
            }
        }
        assert(trim_trailing_zeros(lo) == lo) by {
            lemma_trim_suffix(lo, lo.len() as int);
        }
        lemma_digits_val_concat(hi, lo);
        lemma_digits_val_of_spec_digits(d.mantissa / p);
        lemma_digits_val_of_spec_digits_padded(d.mantissa % p, d.scale);
        assert(0 <= d.mantissa % p < p) by (nonlinear_arith)
            requires
                p >= 1,
                d.mantissa >= 0,
        ;
        vstd::arithmetic::div_mod::lemma_small_mod((d.mantissa % p) as nat, p as nat);
        assert(digits_val(hi + lo) == (d.mantissa / p) * p + d.mantissa % p);
        vstd::arithmetic::div_mod::lemma_fundamental_div_mod(d.mantissa, p);
    }
}

/// A digit string holds no occurrence of a non-digit character.
proof fn lemma_no_dot_in_digits(w: Seq<char>, c: char)
    requires
        all_digits(w),
        !is_digit_char(c),
    ensures
        find_from(w, c, 0) == w.len(),
{
    lemma_find_from_absent(w, c, 0);
}

/// Where a character occurs nowhere at or after `i`, the search reaches
/// the end.
pub proof fn lemma_find_from_absent(w: Seq<char>, c: char, i: int)
    requires
        forall|k: int| i <= k < w.len() ==> w[k] != c,
    ensures
        find_from(w, c, i) == w.len(),
    decreases w.len() - i,
{
    if 0 <= i < w.len() {
        lemma_find_from_absent(w, c, i + 1);
    }
}

/// Where a character first occurs at `j`, the search finds `j`.
proof fn lemma_find_from_position(w: Seq<char>, c: char, j: int)
    requires
        0 <= j < w.len(),
        w[j] == c,
        forall|k: int| 0 <= k < j ==> w[k] != c,
    ensures
        find_from(w, c, 0) == j,
{
    lemma_find_from_position_from(w, c, 0, j);
}

/// The search from `i` lands on the first occurrence at or after `i`.
proof fn lemma_find_from_position_from(w: Seq<char>, c: char, i: int, j: int)
    requires
        0 <= i <= j < w.len(),
        w[j] == c,
        forall|k: int| i <= k < j ==> w[k] != c,
    ensures
        find_from(w, c, i) == j,
    decreases j - i,
{
    if i < j {
        lemma_find_from_position_from(w, c, i + 1, j);
    }
}

/// The digit string of `n`.
fn digits_string(n: u64) -> (r: String)
    ensures
        r@ == spec_digits(n as int),
    decreases n,
{
    let d = ((48 + (n % 10)) as u8) as char;
    if n < 10 {
        char_to_string(d)
    } else {
        let prefix = digits_string(n / 10);
        let r = prefix.concat(char_to_string(d).as_str());
        proof {
            assert(r@ =~= spec_digits((n / 10) as int).push(digit_char(n as int % 10)));
        }
        r
    }
}

/// The digit string of `n`, padded with leading zeros to `width` digits.
fn digits_padded(n: u64, width: u32) -> (r: String)
    ensures
        r@ == spec_digits_padded(n as int, width as nat),
    decreases width,
{
    if width == 0 {
        let r = String::new();
        proof {
            assert(r@ =~= spec_digits_padded(n as int, 0));
        }
        r
    } else {
        let d = ((48 + (n % 10)) as u8) as char;
        let prefix = digits_padded(n / 10, width - 1);
        let r = prefix.concat(char_to_string(d).as_str());
        proof {
            assert(r@ =~= spec_digits_padded((n / 10) as int, (width - 1) as nat).push(
                digit_char(n as int % 10),
            ));
        }
        r
    }
}

impl Decimal {
    /// The whole number `n`.
    pub fn from_int(n: u64) -> (r: Decimal)
        requires
            n < dec_limit(),
        ensures
            r@ == (DecimalModel { mantissa: n as int, scale: 0 }),
            dec_wf(r@),
    {
        Decimal { mantissa: n, scale: 0 }
    }

    /// The canonical number text of this decimal.
    pub fn to_text(&self) -> (r: String)
        requires
            dec_wf(self@),
        ensures
            r@ == spec_render_decimal(self@),
    {
        if self.scale == 0 {
            digits_string(self.mantissa)
        } else {
            let p = crate::text::pow10_exec(self.scale);
            proof {
                crate::text::lemma_pow10_mono(1, self.scale as nat);
            }
            let whole = digits_string(self.mantissa / p);
            let frac = digits_padded(self.mantissa % p, self.scale);
            let r = whole.concat(".").concat(frac.as_str());
            proof {
                reveal_strlit(".");
                assert("."@ =~= seq!['.']);
                assert(r@ =~= spec_render_decimal(self@));
            }
            r
        }
    }
}

/// An indivisible lexical unit of the query language.
#[derive(Debug, Clone, PartialEq)]
pub enum Token {
    GT,
    LT,
    GTE,
    LTE,
    EQ,
    NE,
    LIKE,
    NLIKE,
    AND,
    OR,
    LP,
    RP,
    EOF,
    Str(String),
    Float(Decimal),
    Date(i64),
    Unexpected(String),
}

/// Mathematical model of a [`Token`].
pub enum TokenModel {
    GT,
    LT,
    GTE,
    LTE,
    EQ,
    NE,
    LIKE,
    NLIKE,
    AND,
    OR,
    LP,
    RP,
    EOF,
    Str(Seq<char>),
    Float(DecimalModel),
    Date(int),
    Unexpected(Seq<char>),
}

impl View for Token {
    type V = TokenModel;

    open spec fn view(&self) -> TokenModel {
        match self {
            Token::GT => TokenModel::GT,
            Token::LT => TokenModel::LT,
            Token::GTE => TokenModel::GTE,
            Token::LTE => TokenModel::LTE,
            Token::EQ => TokenModel::EQ,
            Token::NE => TokenModel::NE,
            Token::LIKE => TokenModel::LIKE,
            Token::NLIKE => TokenModel::NLIKE,
            Token::AND => TokenModel::AND,
            Token::OR => TokenModel::OR,
            Token::LP => TokenModel::LP,
            Token::RP => TokenModel::RP,
            Token::EOF => TokenModel::EOF,
            Token::Str(s) => TokenModel::Str(s@),
            Token::Float(d) => TokenModel::Float(d@),
            Token::Date(t) => TokenModel::Date(*t as int),
            Token::Unexpected(s) => TokenModel::Unexpected(s@),
        }
    }
}

/// The token denoted by a single character that is not part of a longer
/// token: a parenthesis, a single-character operator, or `Unexpected`.
pub open spec fn spec_token_from_char(c: char) -> TokenModel {
    if c == '(' {
        TokenModel::LP
    } else if c == ')' {
        TokenModel::RP
    } else if c == '>' {
        TokenModel::GT
    } else if c == '<' {
        TokenModel::LT
    } else if c == '=' {
        TokenModel::EQ
    } else if c == '!' {
        TokenModel::NE
    } else if c == '^' {
        TokenModel::LIKE
    } else {
        TokenModel::Unexpected(seq![c])
    }
}

/// The token denoted by a classified run of text: a two-character operator,
/// a reserved word (`and` / `or`, any letter case), a bare string, or a
/// number or date when the run starts with a digit or a dash.
pub open spec fn spec_token_from_text(w: Seq<char>) -> TokenModel {
    if w == seq!['>', '='] {
        TokenModel::GTE
    } else if w == seq!['<', '='] {
        TokenModel::LTE
    } else if w == seq!['!', '='] {
        TokenModel::NE
    } else if w == seq!['^', '^'] {
        TokenModel::NLIKE
    } else if w.len() == 0 {
        TokenModel::EOF
    } else if to_lower(w) == seq!['a', 'n', 'd'] {
        TokenModel::AND
    } else if to_lower(w) == seq!['o', 'r'] {
        TokenModel::OR
    } else if is_letter_char(w[0]) {
        TokenModel::Str(w)
    } else if is_digit_char(w[0]) || w[0] == '-' {
        if find_from(w, '-', 0) != w.len() {
            match spec_parse_date(w) {
                Some(t) => TokenModel::Date(t),
                None => TokenModel::Unexpected(w),
            }
        } else {
            match spec_parse_decimal(w) {
                Some(d) => TokenModel::Float(d),
                None => TokenModel::Unexpected(w),
            }
        }
    } else {
        TokenModel::Unexpected(w)
    }
}

/// Binding strength of a token when it is seen as the parser's lookahead:
/// comparison operators bind tightest, then `AND`/`OR`, then adjacent
/// strings; everything else does not bind at all.
pub open spec fn spec_precedence(t: TokenModel) -> int {
    match t {
        TokenModel::GT => 3,
        TokenModel::LT => 3,
        TokenModel::GTE => 3,
        TokenModel::LTE => 3,
        TokenModel::EQ => 3,
        TokenModel::NE => 3,
        TokenModel::LIKE => 3,
        TokenModel::NLIKE => 3,
        TokenModel::AND => 2,
        TokenModel::OR => 2,
        TokenModel::Str(_) => 1,
        _ => 0,
    }
}

/// Whether a token is an infix operator: a comparison or `AND`/`OR`.
pub open spec fn is_op_token(t: TokenModel) -> bool {
    spec_precedence(t) >= 2
}

impl Token {
    /// Classify a single character.
    pub fn from_char(c: char) -> (r: Token)
        ensures
            r@ == spec_token_from_char(c),
    {
        if c == '(' {
            Token::LP
        } else if c == ')' {
            Token::RP
        } else if c == '>' {
            Token::GT
        } else if c == '<' {
            Token::LT
        } else if c == '=' {
            Token::EQ
        } else if c == '!' {
            Token::NE
        } else if c == '^' {
            Token::LIKE
        } else {
            Token::Unexpected(char_to_string(c))
        }
    }

    /// Classify a run of text.
    pub fn from_text(s: &str) -> (r: Token)
        ensures
            r@ == spec_token_from_text(s@),
    {
        let len = s.unicode_len();
        if len == 2 {
            let c0 = s.get_char(0);
            let c1 = s.get_char(1);
            if c0 == '>' && c1 == '=' {
                proof {
                    assert(s@ =~= seq!['>', '=']);
                }
                return Token::GTE;
            }
            if c0 == '<' && c1 == '=' {
                proof {
                    assert(s@ =~= seq!['<', '=']);
                }
                return Token::LTE;
            }
            if c0 == '!' && c1 == '=' {
                proof {
                    assert(s@ =~= seq!['!', '=']);
                }
                return Token::NE;
            }
            if c0 == '^' && c1 == '^' {
                proof {
                    assert(s@ =~= seq!['^', '^']);
                }
                return Token::NLIKE;
            }
            if lower_char_exec(c0) == 'o' && lower_char_exec(c1) == 'r' {
                proof {
                    assert(to_lower(s@) =~= seq!['o', 'r']);
                }
                return Token::OR;
            }
        }
        if len == 3 {
            let c0 = lower_char_exec(s.get_char(0));
            let c1 = lower_char_exec(s.get_char(1));
            let c2 = lower_char_exec(s.get_char(2));
            if c0 == 'a' && c1 == 'n' && c2 == 'd' {
                proof {
                    assert(to_lower(s@) =~= seq!['a', 'n', 'd']);
                }
                return Token::AND;
            }
        }
        if len == 0 {
            return Token::EOF;
        }
        proof {
            lemma_not_op_pair(s@);
            lemma_not_reserved(s@);
        }
        let c0 = s.get_char(0);
        let u = c0 as u32;
        if (97 <= u && u <= 122) || (65 <= u && u <= 90) {
            return Token::Str(s.to_owned());
        }
        if (48 <= u && u <= 57) || c0 == '-' {
            if find_char(s, '-', 0) != len {
                match parse_date_text(s) {
                    Some(t) => {
                        return Token::Date(t);
                    },
                    None => {
                        return Token::Unexpected(s.to_owned());
                    },
                }
            } else {
                match parse_decimal(s) {
                    Some(d) => {
                        return Token::Float(d);
                    },
                    None => {
                        return Token::Unexpected(s.to_owned());
                    },
                }
            }
        }
        Token::Unexpected(s.to_owned())
    }

    /// Binding strength of this token as the parser's lookahead.
    pub fn precedence(&self) -> (r: u8)
        ensures
            r as int == spec_precedence(self@),
    {
        match self {
            Token::GT => 3,
            Token::LT => 3,
            Token::GTE => 3,
            Token::LTE => 3,
            Token::EQ => 3,
            Token::NE => 3,
            Token::LIKE => 3,
            Token::NLIKE => 3,
            Token::AND => 2,
            Token::OR => 2,
            Token::Str(_) => 1,
            _ => 0,
        }
    }

    /// Whether this token is an infix operator.
    pub fn is_operator(&self) -> (r: bool)
        ensures
            r == is_op_token(self@),
    {
        self.precedence() >= 2
    }

    /// A new token equal to this one, field for field.
    pub fn duplicate(&self) -> (r: Token)
        ensures
            r@ == self@,
    {
        match self {
            Token::GT => Token::GT,
            Token::LT => Token::LT,
            Token::GTE => Token::GTE,
            Token::LTE => Token::LTE,
            Token::EQ => Token::EQ,
            Token::NE => Token::NE,
            Token::LIKE => Token::LIKE,
            Token::NLIKE => Token::NLIKE,
            Token::AND => Token::AND,
            Token::OR => Token::OR,
            Token::LP => Token::LP,
            Token::RP => Token::RP,
            Token::EOF => Token::EOF,
            Token::Str(s) => Token::Str(s.clone()),
            Token::Float(d) => Token::Float(*d),
            Token::Date(t) => Token::Date(*t),
            Token::Unexpected(s) => Token::Unexpected(s.clone()),
        }
    }

    /// A short label for this token, used in error messages.
    pub fn describe(&self) -> (r: &'static str)
        ensures
            r@ == spec_describe(self@),
    {
        match self {
            Token::GT => ">",
            Token::LT => "<",
            Token::GTE => ">=",
            Token::LTE => "<=",
            Token::EQ => "=",
            Token::NE => "!=",
            Token::LIKE => "^",
            Token::NLIKE => "^^",
            Token::AND => "AND",
            Token::OR => "OR",
            Token::LP => "(",
            Token::RP => ")",
            Token::EOF => "EOF",
            Token::Str(_) => "string",
            Token::Float(_) => "number",
            Token::Date(_) => "date",
            Token::Unexpected(_) => "unexpected input",
        }
    }
}

/// The label [`Token::describe`] gives each token.
pub open spec fn spec_describe(t: TokenModel) -> Seq<char> {
    match t {
        TokenModel::GT => ">"@,
        TokenModel::LT => "<"@,
        TokenModel::GTE => ">="@,
        TokenModel::LTE => "<="@,
        TokenModel::EQ => "="@,
        TokenModel::NE => "!="@,
        TokenModel::LIKE => "^"@,
        TokenModel::NLIKE => "^^"@,
        TokenModel::AND => "AND"@,
        TokenModel::OR => "OR"@,
        TokenModel::LP => "("@,
        TokenModel::RP => ")"@,
        TokenModel::EOF => "EOF"@,
        TokenModel::Str(_) => "string"@,
        TokenModel::Float(_) => "number"@,
        TokenModel::Date(_) => "date"@,
        TokenModel::Unexpected(_) => "unexpected input"@,
    }
}

/// A text whose lower-casing has length other than 2 or 3 is no reserved
/// word; helper facts for classification.
proof fn lemma_not_reserved(w: Seq<char>)
    ensures
        w.len() != 3 ==> to_lower(w) != seq!['a', 'n', 'd'],
        w.len() != 2 ==> to_lower(w) != seq!['o', 'r'],
{
    assert(to_lower(w).len() == w.len());
    assert(seq!['a', 'n', 'd'].len() == 3);
    assert(seq!['o', 'r'].len() == 2);
}

/// A text of length other than 2 is none of the two-character operators.
proof fn lemma_not_op_pair(w: Seq<char>)
    ensures
        w.len() != 2 ==> w != seq!['>', '='] && w != seq!['<', '='] && w != seq!['!', '='] && w
            != seq!['^', '^'],
{
    assert(seq!['>', '='].len() == 2);
    assert(seq!['<', '='].len() == 2);
    assert(seq!['!', '='].len() == 2);
    assert(seq!['^', '^'].len() == 2);
}

/// Read the number text `s` as a canonical decimal.
#[verifier::loop_isolation(false)]
#[verifier::rlimit(100)]
pub fn parse_decimal(s: &str) -> (r: Option<Decimal>)
    ensures
        match r {
            Some(d) => spec_parse_decimal(s@) == Some(d@) && dec_wf(d@),
            None => spec_parse_decimal(s@) is None,
        },
{
    let len = s.unicode_len();
    if len == 0 {
        return None;
    }
    let dot = find_char(s, '.', 0);
    if dot < len {
        let second = find_char(s, '.', dot + 1);
        if second != len {
            return None;
        }
    }
    if dot == 0 && len == 1 {
        // A lone dot has no digits at all.
        return None;
    }
    let ghost int_part = s@.subrange(0, dot as int);
    let ghost frac = if dot < len {
        s@.subrange(dot + 1, len as int)
    } else {
        Seq::<char>::empty()
    };
    // The significant digits stop where the fraction's trailing zeros start.
    let frac_start = if dot < len {
        dot + 1
    } else {
        len
    };
    let frac_end = scan_back_zeros(s, frac_start, len);
    proof {
        assert(forall|k: int|
            frac_end - frac_start <= k < frac.len() ==> frac[k] == s@[k + frac_start] && frac[k]
                == '0');
        assert(frac_end > frac_start ==> frac[frac_end - frac_start - 1] == s@[frac_end - 1]);
        lemma_trim_suffix(frac, frac_end - frac_start);
        assert(frac.take(frac_end - frac_start) =~= s@.subrange(
            frac_start as int,
            frac_end as int,
        ));
    }
    let ghost frac_kept = trim_trailing_zeros(frac);
    let ghost digits = int_part + frac_kept;
    let scale = frac_end - frac_start;
    if scale > 15 {
        // Even if everything else is in shape, the scale cap fails.
        return None;
    }
    let mut m: u64 = 0;
    let mut i: usize = 0;
    // Fold the integer digits.
    while i < dot && i < len
        invariant
            0 <= i <= dot,
            i <= len,
            len == s@.len(),
            dot == find_from(s@, '.', 0),
            int_part == s@.subrange(0, dot as int),
            i < dot ==> i < len,
            all_digits(int_part.take(i as int)),
            m == digits_val(int_part.take(i as int)),
            m < 1000000000000000,
        decreases len - i,
    {
        let c = s.get_char(i);
        let u = c as u32;
        if !(48 <= u && u <= 57) {
            proof {
                assert(int_part[i as int] == s@[i as int]);
            }
            return None;
        }
        let next = m * 10 + (u as u64 - 48);
        proof {
            assert(int_part.take(i + 1).take(i as int) =~= int_part.take(i as int));
            assert(int_part.take(i + 1)[i as int] == s@[i as int]);
        }
        if next >= 1000000000000000 {
            proof {
                assert(digits.take(i + 1) =~= int_part.take(i + 1));
                lemma_overflow_case(int_part, frac, i + 1);
            }
            return None;
        }
        m = next;
        i = i + 1;
    }
    proof {
        assert(int_part.take(dot as int) =~= int_part);
        assert(digits.take(dot as int) =~= int_part);
    }
    // Fold the kept fraction digits.
    let mut j: usize = frac_start;
    while j < frac_end
        invariant
            frac_start <= j <= frac_end <= len,
            len == s@.len(),
            dot == find_from(s@, '.', 0),
            dot < len ==> frac_start == dot + 1,
            dot >= len ==> frac_start == len,
            int_part == s@.subrange(0, dot as int),
            frac_kept == s@.subrange(frac_start as int, frac_end as int),
            digits == int_part + frac_kept,
            all_digits(digits.take(dot + (j - frac_start))),
            m == digits_val(digits.take(dot + (j - frac_start))),
            m < 1000000000000000,
        decreases frac_end - j,
    {
        let c = s.get_char(j);
        let u = c as u32;
        let ghost k = dot + (j - frac_start);
        if !(48 <= u && u <= 57) {
            proof {
                assert(digits[k] == frac_kept[j - frac_start]);
                assert(frac_kept[j - frac_start] == s@[j as int]);
                assert(frac[j - frac_start] == s@[j as int]);
            }
            return None;
        }
        let next = m * 10 + (u as u64 - 48);
        proof {
            assert(digits.take(k + 1).take(k) =~= digits.take(k));
            assert(digits.take(k + 1)[k] == frac_kept[j - frac_start]);
            assert(frac_kept[j - frac_start] == s@[j as int]);
        }
        if next >= 1000000000000000 {
            proof {
                lemma_overflow_case(int_part, frac, k + 1);
            }
            return None;
        }
        m = next;
        j = j + 1;
    }
    proof {
        assert(digits.take(dot + (frac_end - frac_start)) =~= digits);
        assert(frac_kept == frac.take(scale as int));
        assert forall|q: int| 0 <= q < frac.len() implies is_digit_char(#[trigger] frac[q]) by {
            if q < scale {
                assert(frac[q] == frac.take(scale as int)[q]);
                assert(frac_kept[q] == digits[int_part.len() + q]);
            } else {
                assert(frac[q] == s@[q + frac_start]);
                assert(frac[q] == '0');
            }
        }
        if scale > 0 {
            assert(digits[digits.len() - 1] == frac_kept[frac_kept.len() - 1]);
            assert(frac_kept[frac_kept.len() - 1] == s@[frac_end - 1]);
            assert(frac[scale - 1] == s@[frac_end - 1]);
            assert(is_digit_char(s@[frac_end - 1]));
            assert(s@[frac_end - 1] != '0');
            assert(digit_val(s@[frac_end - 1]) != 0) by {
                if s@[frac_end - 1] as u32 == 48 {
                    vstd::utf8::char_u32_cast(s@[frac_end - 1], 48);
                    vstd::utf8::char_u32_cast('0', 48);
                }
            };
            lemma_digits_val_last(digits);
            assert(digits_val(digits) % 10 != 0);
        }
        assert(all_digits(int_part));
        assert(all_digits(frac));
        assert(int_part.len() + frac.len() >= 1);
        assert(find_from(s@, '.', dot + 1) == len);
        assert(m == digits_val(int_part + frac_kept));
        assert(scale == frac_kept.len());
        assert(spec_parse_decimal(s@) == Some(
            DecimalModel { mantissa: m as int, scale: scale as nat },
        ));
    }
    Some(Decimal { mantissa: m, scale: scale as u32 })
}

/// If the digit string's prefix already reaches the mantissa cap, so does
/// the whole value, and the text cannot denote a decimal.
proof fn lemma_overflow_case(int_part: Seq<char>, frac: Seq<char>, k: int)
    requires
        trim_trailing_zeros(frac).len() <= frac.len(),
        trim_trailing_zeros(frac) == frac.take(trim_trailing_zeros(frac).len() as int),
        0 < k <= (int_part + trim_trailing_zeros(frac)).len(),
        digits_val((int_part + trim_trailing_zeros(frac)).take(k)) >= dec_limit(),
    ensures
        all_digits(int_part) && all_digits(frac) ==> digits_val(
            int_part + trim_trailing_zeros(frac),
        ) >= dec_limit(),
{
    if all_digits(int_part) && all_digits(frac) {
        let kept = trim_trailing_zeros(frac);
        let digits = int_part + kept;
        assert forall|q: int| 0 <= q < kept.len() implies is_digit_char(#[trigger] kept[q]) by {
            assert(kept[q] == frac.take(kept.len() as int)[q]);
        }
        assert forall|q: int| 0 <= q < digits.len() implies is_digit_char(
            #[trigger] digits[q],
        ) by {
            if q < int_part.len() {
                assert(digits[q] == int_part[q]);
            } else {
                assert(digits[q] == kept[q - int_part.len()]);
            }
        }
        lemma_digits_val_prefix(digits, k);
    }
}

} // verus!

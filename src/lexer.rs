//! The lexer: turns preprocessed bytes into a flat sequence of tokens.
use vstd::prelude::*;
use crate::text::{
    chars_of, decimal, is_alnum, is_alnum_byte, position_at, position_of, push_char,
    push_decimal, replace_pair, replace_pair_bytes, string_of_byte, string_of_bytes, Position,
    FILLER,
};

verus! {

/// One classified unit of output. `token_type_id` is the 1-based rank of the
/// matching class among the symbol classes, or 0 for literals, undefined
/// characters and words.
pub struct Token {
    pub token_type: String,
    pub token_type_id: usize,
    pub value: String,
}

/// A token as plain values: its type, its id and its value.
pub type TokenModel = (Seq<char>, nat, Seq<char>);

impl View for Token {
    type V = TokenModel;

    open spec fn view(&self) -> TokenModel {
        (self.token_type@, self.token_type_id as nat, self.value@)
    }
}

/// A single-character rule. Only classes with `symbol` set take part in
/// matching, in declaration order; `write` decides whether a match is emitted.
pub struct TokenClass {
    pub look: String,
    pub token_type: String,
    pub symbol: bool,
    pub write: bool,
}

/// A lexer over a fixed, priority-ordered table of token classes. Each byte
/// of input is one character.
pub struct Lexer {
    pub token_classes: Vec<TokenClass>,
}

/// A problem found while tokenizing, at a zero-based line and column.
pub struct LexerError {
    pub pos: Position,
    pub what: String,
}

pub open spec fn unterminated_message() -> Seq<char> {
    "string does not terminate."@
}

/// Space, newline, tab, NUL and every other byte that is not a letter or digit.
pub open spec fn ends_word(b: u8) -> bool {
    b == 32u8 || b == 10u8 || b == 9u8 || b == 0u8 || !is_alnum(b)
}

fn ending_char(c: u8) -> (r: bool)
    ensures
        r == ends_word(c),
{
    match c {
        32u8 => true,
        10u8 => true,
        9u8 => true,
        0u8 => true,
        _ => !is_alnum_byte(c),
    }
}

/// The escape sequences of a string literal, resolved in a fixed order.
pub open spec fn unescape(s: Seq<u8>) -> Seq<u8> {
    let bs = 92u8;
    let s1 = replace_pair(s, bs, 110u8, 10u8);
    let s2 = replace_pair(s1, bs, 114u8, 13u8);
    let s3 = replace_pair(s2, bs, 116u8, 9u8);
    let s4 = replace_pair(s3, bs, bs, bs);
    let s5 = replace_pair(s4, bs, 34u8, 34u8);
    replace_pair(s5, bs, 39u8, 39u8)
}

/// Offset of the first `"` at or after `j` whose preceding byte is not a backslash.
pub open spec fn closing_quote(d: Seq<u8>, j: int) -> Option<int>
    decreases d.len() - j,
{
    if j < 1 || j >= d.len() {
        None
    } else if d[j] == 34u8 && d[j - 1] != 92u8 {
        Some(j)
    } else {
        closing_quote(d, j + 1)
    }
}

/// End of the word run that goes on from `k`.
pub open spec fn word_end(d: Seq<u8>, k: int) -> int
    decreases d.len() - k,
{
    if k < 0 || k >= d.len() || ends_word(d[k]) {
        k
    } else {
        word_end(d, k + 1)
    }
}

/// The first symbol class from index `k` on whose look is the character of `c`,
/// with its rank; `rank` is the rank of the next symbol class.
pub open spec fn symbol_match(classes: Seq<TokenClass>, c: u8, k: int, rank: nat) -> Option<
    (int, nat),
>
    decreases classes.len() - k,
{
    if k < 0 || k >= classes.len() {
        None
    } else if !classes[k].symbol {
        symbol_match(classes, c, k + 1, rank)
    } else if classes[k].look@ == seq![c as char] {
        Some((k, rank))
    } else {
        symbol_match(classes, c, k + 1, rank + 1)
    }
}

/// The tokens from offset `i` on, and the offset of a string literal that
/// does not terminate, if one stops the pass.
pub open spec fn lex(classes: Seq<TokenClass>, d: Seq<u8>, i: int) -> (Seq<TokenModel>, Option<int>)
    decreases d.len() - i,
{
    if i < 0 || i >= d.len() {
        (seq![], None)
    } else if d[i] == 34u8 {
        match closing_quote(d, i + 1) {
            None => (seq![], Some(i)),
            Some(j) => {
                if j <= i || j >= d.len() {
                    (seq![], None)
                } else {
                    let rest = lex(classes, d, j + 1);
                    let tok = ("text_literal"@, 0nat, chars_of(unescape(d.subrange(i + 1, j))));
                    (seq![tok] + rest.0, rest.1)
                }
            },
        }
    } else {
        match symbol_match(classes, d[i], 0, 1) {
            Some((k, rank)) => {
                let rest = lex(classes, d, i + 1);
                if 0 <= k < classes.len() && classes[k].write {
                    (seq![(classes[k].token_type@, rank, seq![d[i] as char])] + rest.0, rest.1)
                } else {
                    rest
                }
            },
            None => {
                if !is_alnum(d[i]) {
                    let rest = lex(classes, d, i + 1);
                    if d[i] == FILLER {
                        rest
                    } else {
                        (seq![("undefined_char"@, 0nat, seq![d[i] as char])] + rest.0, rest.1)
                    }
                } else {
                    let j = word_end(d, i + 1);
                    if j <= i || j > d.len() {
                        (seq![], None)
                    } else {
                        let rest = lex(classes, d, j);
                        (
                            seq![("undefined_string"@, 0nat, chars_of(d.subrange(i, j)))]
                                + rest.0,
                            rest.1,
                        )
                    }
                }
            },
        }
    }
}


/// A token value made readable: CR LF and LF become `[New Line]`, a lone CR
/// `[Carriage Return]`, a tab `[Tab]`, and outside a text literal a space `[Space]`.
pub open spec fn shown_value(v: Seq<char>, literal: bool) -> Seq<char>
    decreases v.len(),
{
    if v.len() == 0 {
        seq![]
    } else if v.len() >= 2 && v[0] == '\r' && v[1] == '\n' {
        "[New Line]"@ + shown_value(v.skip(2), literal)
    } else if v[0] == ' ' && !literal {
        "[Space]"@ + shown_value(v.skip(1), literal)
    } else if v[0] == '\n' {
        "[New Line]"@ + shown_value(v.skip(1), literal)
    } else if v[0] == '\r' {
        "[Carriage Return]"@ + shown_value(v.skip(1), literal)
    } else if v[0] == '\t' {
        "[Tab]"@ + shown_value(v.skip(1), literal)
    } else {
        seq![v[0]] + shown_value(v.skip(1), literal)
    }
}

/// The one-line description of a token.
pub open spec fn description(t: TokenModel) -> Seq<char> {
    "token: "@ + t.0 + ", value: '"@ + shown_value(t.2, t.0 == "text_literal"@) + "'"@
}

impl Token {
    /// `token: <type>, value: '<value>'`, with the value made readable.
    pub fn describe(&self) -> (r: String)
        ensures
            r@ == description(self@),
    {
        let literal = self.token_type == String::from_str("text_literal");
        let v = self.value.as_str();
        let n = v.unicode_len();
        let mut out = String::from_str("token: ");
        out.append(self.token_type.as_str());
        out.append(", value: '");
        let ghost head = out@;
        let mut i: usize = 0;
        proof {
            assert(v@.skip(0) =~= v@);
            assert(out@ =~= head + Seq::<char>::empty());
        }
        while i < n
            invariant
                n == v@.len(),
                i <= n,
                v@ == self.value@,
                literal == (self.token_type@ == "text_literal"@),
                head + shown_value(v@, literal) == out@ + shown_value(v@.skip(i as int), literal),
            decreases n - i,
        {
            let ghost rest = v@.skip(i as int);
            let ghost before = out@;
            let c = v.get_char(i);
            if c == '\r' && i + 1 < n && v.get_char(i + 1) == '\n' {
                out.append("[New Line]");
                proof {
                    assert(rest.skip(2) =~= v@.skip(i + 2));
                }
                i = i + 2;
            } else {
                if c == ' ' && !literal {
                    out.append("[Space]");
                } else if c == '\n' {
                    out.append("[New Line]");
                } else if c == '\r' {
                    out.append("[Carriage Return]");
                } else if c == '\t' {
                    out.append("[Tab]");
                } else {
                    push_char(&mut out, c);
                }
                proof {
                    assert(rest.skip(1) =~= v@.skip(i + 1));
                    assert(rest[0] == c);
                }
                i = i + 1;
            }
            proof {
                assert(out@ + shown_value(v@.skip(i as int), literal) =~= before + shown_value(
                    rest,
                    literal,
                ));
            }
        }
        out.append("'");
        proof {
            assert(v@.skip(i as int) =~= Seq::<char>::empty());
            assert(out@ =~= description(self@));
        }
        out
    }
}

pub open spec fn token_models(ts: Seq<Token>) -> Seq<TokenModel> {
    ts.map_values(|t: Token| t@)
}

impl LexerError {
    /// `lex[<line>, <column>]: error: <message>`.
    pub fn describe(&self) -> (r: String)
        ensures
            r@ == "lex["@ + decimal(self.pos.line as nat) + ", "@ + decimal(self.pos.column as nat)
                + "]: error: "@ + self.what@,
    {
        let mut out = String::from_str("lex[");
        push_decimal(&mut out, self.pos.line);
        out.append(", ");
        push_decimal(&mut out, self.pos.column);
        out.append("]: error: ");
        out.append(self.what.as_str());
        out
    }

    pub fn position(&self) -> (r: Position)
        ensures
            r == self.pos,
    {
        self.pos
    }

    pub fn message(&self) -> (r: String)
        ensures
            r@ == self.what@,
    {
        self.what.clone()
    }
}

impl Lexer {
    pub fn create(classes: Vec<TokenClass>) -> (r: Self)
        ensures
            r.token_classes@ == classes@,
    {
        Self { token_classes: classes }
    }

    /// The tokens of `data`, in order. A string literal that does not
    /// terminate adds one error at its opening quote and ends the pass.
    pub fn tokenize(&self, data: &Vec<u8>, lex_errors: &mut Vec<LexerError>) -> (output: Vec<Token>)
        requires
            self.token_classes@.len() < usize::MAX,
        ensures
            token_models(output@) == lex(self.token_classes@, data@, 0).0,
            match lex(self.token_classes@, data@, 0).1 {
                None => final(lex_errors)@ == old(lex_errors)@,
                Some(p) => {
                    &&& final(lex_errors)@.len() == old(lex_errors)@.len() + 1
                    &&& final(lex_errors)@.take(old(lex_errors)@.len() as int) == old(lex_errors)@
                    &&& final(lex_errors)@.last().pos == position_of(data@, p)
                    &&& final(lex_errors)@.last().what@ == unterminated_message()
                },
            },
    {
        let ghost classes = self.token_classes@;
        let ghost d = data@;
        let mut output: Vec<Token> = Vec::new();
        let mut i: usize = 0;
        proof {
            assert(token_models(output@) + lex(classes, d, 0).0 =~= lex(classes, d, 0).0);
        }
        while i < data.len()
            invariant
                classes == self.token_classes@,
                d == data@,
                i <= data.len(),
                token_models(output@) + lex(classes, d, i as int).0 == lex(classes, d, 0).0,
                lex(classes, d, i as int).1 == lex(classes, d, 0).1,
                lex_errors@ == old(lex_errors)@,
                classes.len() < usize::MAX,
            decreases data.len() - i,
        {
            let current = data[i];
            let ghost before = token_models(output@);
            if current == 34u8 {
                let mut j: usize = i + 1;
                while j < data.len() && !(data[j] == 34u8 && data[j - 1] != 92u8)
                    invariant
                        i + 1 <= j <= data.len(),
                        closing_quote(d, j as int) == closing_quote(d, i + 1),
                        d == data@,
                    decreases data.len() - j,
                {
                    j = j + 1;
                }
                if j >= data.len() {
                    let message = String::from_str("string does not terminate.");
                    let pos = position_at(data, i);
                    lex_errors.push(LexerError { pos, what: message });
                    proof {
                        assert(token_models(output@) + seq![] =~= token_models(output@));
                        assert(lex_errors@.take(old(lex_errors)@.len() as int)
                            =~= old(lex_errors)@);
                    }
                    return output;
                }
                let raw = slice_bytes(data, i + 1, j);
                let value_bytes = unescape_bytes(&raw);
                let value = string_of_bytes(&value_bytes, 0, value_bytes.len());
                let token = Token {
                    token_type: String::from_str("text_literal"),
                    token_type_id: 0,
                    value,
                };
                proof {
                    assert(value_bytes@.subrange(0, value_bytes@.len() as int) =~= value_bytes@);
                }
                output.push(token);
                proof {
                    assert(token_models(output@) =~= before.push(token@));
                    assert(before.push(token@) + lex(classes, d, j + 1).0 =~= before + lex(
                        classes,
                        d,
                        i as int,
                    ).0);
                }
                i = j + 1;
            } else {
                let mut id: usize = 1;
                let mut k: usize = 0;
                let mut found = false;
                let look = string_of_byte(current);
                while k < self.token_classes.len()
                    invariant
                        classes == self.token_classes@,
                        k <= classes.len(),
                        1 <= id <= k + 1,
                        symbol_match(classes, current, k as int, id as nat) == symbol_match(
                            classes,
                            current,
                            0,
                            1,
                        ),
                        look@ == seq![current as char],
                        classes.len() < usize::MAX,
                    ensures
                        k <= classes.len(),
                        1 <= id <= k + 1,
                        symbol_match(classes, current, k as int, id as nat) == symbol_match(
                            classes,
                            current,
                            0,
                            1,
                        ),
                        k < classes.len() ==> classes[k as int].symbol && classes[k as int].look@
                            == seq![current as char],
                    decreases classes.len() - k,
                {
                    let class = &self.token_classes[k];
                    if class.symbol {
                        if look == class.look {
                            break;
                        }
                        id = id + 1;
                    }
                    k = k + 1;
                }
                if k < self.token_classes.len() {
                    let class = &self.token_classes[k];
                    if class.write {
                        let token = Token {
                            token_type: class.token_type.clone(),
                            token_type_id: id,
                            value: string_of_byte(current),
                        };
                        output.push(token);
                        proof {
                            assert(token_models(output@) =~= before.push(token@));
                            assert(before.push(token@) + lex(classes, d, i + 1).0 =~= before
                                + lex(classes, d, i as int).0);
                        }
                    }
                    i = i + 1;
                } else if !is_alnum_byte(current) {
                    if current != FILLER {
                        let token = Token {
                            token_type: String::from_str("undefined_char"),
                            token_type_id: 0,
                            value: string_of_byte(current),
                        };
                        output.push(token);
                        proof {
                            assert(token_models(output@) =~= before.push(token@));
                            assert(before.push(token@) + lex(classes, d, i + 1).0 =~= before
                                + lex(classes, d, i as int).0);
                        }
                    }
                    i = i + 1;
                } else {
                    let mut j: usize = i + 1;
                    while j < data.len() && !ending_char(data[j])
                        invariant
                            i + 1 <= j <= data.len(),
                            word_end(d, j as int) == word_end(d, i + 1),
                            d == data@,
                        decreases data.len() - j,
                    {
                        j = j + 1;
                    }
                    let token = Token {
                        token_type: String::from_str("undefined_string"),
                        token_type_id: 0,
                        value: string_of_bytes(data, i, j),
                    };
                    output.push(token);
                    proof {
                        assert(token_models(output@) =~= before.push(token@));
                        assert(before.push(token@) + lex(classes, d, j as int).0 =~= before + lex(
                            classes,
                            d,
                            i as int,
                        ).0);
                    }
                    i = j;
                }
            }
        }
        proof {
            assert(token_models(output@) + seq![] =~= token_models(output@));
        }
        output
    }
}

/// The bytes `d[from..to]`.
fn slice_bytes(d: &Vec<u8>, from: usize, to: usize) -> (r: Vec<u8>)
    requires
        from <= to <= d@.len(),
    ensures
        r@ == d@.subrange(from as int, to as int),
{
    let mut r: Vec<u8> = Vec::new();
    let mut k: usize = from;
    while k < to
        invariant
            from <= k <= to <= d@.len(),
            r@ =~= d@.subrange(from as int, k as int),
        decreases to - k,
    {
        r.push(d[k]);
        k = k + 1;
        proof {
            assert(r@ =~= d@.subrange(from as int, k as int));
        }
    }
    r
}

/// The captured text of a string literal with its escape sequences resolved.
pub fn unescape_bytes(s: &Vec<u8>) -> (r: Vec<u8>)
    ensures
        r@ == unescape(s@),
{
    let s1 = replace_pair_bytes(s, 92u8, 110u8, 10u8);
    let s2 = replace_pair_bytes(&s1, 92u8, 114u8, 13u8);
    let s3 = replace_pair_bytes(&s2, 92u8, 116u8, 9u8);
    let s4 = replace_pair_bytes(&s3, 92u8, 92u8, 92u8);
    let s5 = replace_pair_bytes(&s4, 92u8, 34u8, 34u8);
    replace_pair_bytes(&s5, 92u8, 39u8, 39u8)
}

/// A symbol class that does not write: when it is the class that matches the
/// byte at `i`, that byte is consumed and contributes no token.
pub proof fn lemma_silent_class_emits_nothing(
    classes: Seq<TokenClass>,
    d: Seq<u8>,
    i: int,
    k: int,
    rank: nat,
)
    requires
        0 <= i < d.len(),
        d[i] != 34u8,
        symbol_match(classes, d[i], 0, 1) == Some((k, rank)),
        !classes[k].write,
    ensures
        lex(classes, d, i) == lex(classes, d, i + 1),
{
}

proof fn lemma_symbol_match_from(classes: Seq<TokenClass>, c: u8, j: int, rank: nat, k: int)
    requires
        0 <= j <= k < classes.len(),
        classes[k].symbol,
        classes[k].look@ == seq![c as char],
        forall|t: int|
            j <= t < k && #[trigger] classes[t].symbol ==> classes[t].look@ != seq![c as char],
    ensures
        symbol_match(classes, c, j, rank) matches Some((m, _)) && m == k,
    decreases k - j,
{
    if j < k {
        if classes[j].symbol {
            lemma_symbol_match_from(classes, c, j + 1, rank + 1, k);
        } else {
            lemma_symbol_match_from(classes, c, j + 1, rank, k);
        }
    }
}

/// Symbol priority: the symbol class that matches a byte is the first one, in
/// declaration order, whose look is that byte's character.
pub proof fn lemma_first_symbol_class_wins(classes: Seq<TokenClass>, c: u8, k: int)
    requires
        0 <= k < classes.len(),
        classes[k].symbol,
        classes[k].look@ == seq![c as char],
        forall|t: int| 0 <= t < k && #[trigger] classes[t].symbol ==> classes[t].look@ != seq![c as char],
    ensures
        symbol_match(classes, c, 0, 1) matches Some((m, _)) && m == k,
{
    lemma_symbol_match_from(classes, c, 0, 1, k);
}

/// An unterminated string literal ends the pass: from its opening quote on,
/// no token is produced and the error names that quote.
pub proof fn lemma_unterminated_literal_halts(classes: Seq<TokenClass>, d: Seq<u8>, p: int)
    requires
        0 <= p < d.len(),
        d[p] == 34u8,
        closing_quote(d, p + 1) is None,
    ensures
        lex(classes, d, p) == (Seq::<TokenModel>::empty(), Some(p)),
{
}

proof fn lemma_word_end_prefix(pre: Seq<u8>, d: Seq<u8>, k: int)
    requires
        d.len() > pre.len(),
        d.subrange(0, pre.len() as int) == pre,
        d[pre.len() as int] == 34u8,
        0 <= k <= pre.len(),
    ensures
        word_end(d, k) == word_end(pre, k),
    decreases pre.len() - k,
{
    if k < pre.len() {
        assert(d[k] == d.subrange(0, pre.len() as int)[k]);
        lemma_word_end_prefix(pre, d, k + 1);
    }
}

proof fn lemma_lex_prefix_from(classes: Seq<TokenClass>, pre: Seq<u8>, d: Seq<u8>, i: int)
    requires
        d.len() > pre.len(),
        d.subrange(0, pre.len() as int) == pre,
        d[pre.len() as int] == 34u8,
        closing_quote(d, pre.len() as int + 1) is None,
        forall|t: int| 0 <= t < pre.len() ==> #[trigger] pre[t] != 34u8,
        0 <= i <= pre.len(),
    ensures
        lex(classes, d, i) == (lex(classes, pre, i).0, Some(pre.len() as int)),
        lex(classes, pre, i).1 is None,
    decreases pre.len() - i,
{
    if i < pre.len() {
        assert(d[i] == d.subrange(0, pre.len() as int)[i]);
        let c = pre[i];
        match symbol_match(classes, c, 0, 1) {
            Some(_) => {
                lemma_lex_prefix_from(classes, pre, d, i + 1);
            },
            None => {
                if !is_alnum(c) {
                    lemma_lex_prefix_from(classes, pre, d, i + 1);
                } else {
                    lemma_word_end_prefix(pre, d, i + 1);
                    let j = word_end(pre, i + 1);
                    if i < j <= pre.len() {
                        lemma_lex_prefix_from(classes, pre, d, j);
                        assert(d.subrange(i, j) =~= pre.subrange(i, j));
                    } else {
                        lemma_word_end_bounds(pre, i + 1);
                    }
                }
            },
        }
    }
}

proof fn lemma_word_end_bounds(d: Seq<u8>, k: int)
    requires
        0 <= k <= d.len(),
    ensures
        k <= word_end(d, k) <= d.len(),
    decreases d.len() - k,
{
    if k < d.len() && !ends_word(d[k]) {
        lemma_word_end_bounds(d, k + 1);
    }
}

/// An unterminated string literal after a quote-free prefix: the tokens are
/// exactly those of the prefix alone, and the pass stops at the quote.
pub proof fn lemma_tokens_before_unterminated_literal(
    classes: Seq<TokenClass>,
    pre: Seq<u8>,
    rest: Seq<u8>,
)
    requires
        forall|t: int| 0 <= t < pre.len() ==> #[trigger] pre[t] != 34u8,
        closing_quote(pre + seq![34u8] + rest, pre.len() as int + 1) is None,
    ensures
        lex(classes, pre + seq![34u8] + rest, 0) == (
            lex(classes, pre, 0).0,
            Some(pre.len() as int),
        ),
        lex(classes, pre, 0).1 is None,
{
    let d = pre + seq![34u8] + rest;
    assert(d.subrange(0, pre.len() as int) =~= pre);
    assert(d[pre.len() as int] == 34u8);
    lemma_lex_prefix_from(classes, pre, d, 0);
}

} // verus!

//! The reader: source text to tokens, tokens to an expression tree.

use crate::error::ParseError;
use crate::expr::{exps_model, same_text, texts, Exp, ExpModel};
use vstd::prelude::*;
use vstd::string::StringExecFns;

verus! {

/// The characters that separate tokens: those with the Unicode property
/// `White_Space`.
pub open spec fn is_space(c: char) -> bool {
    let n = c as u32;
    ||| 0x09 <= n <= 0x0d
    ||| n == 0x20
    ||| n == 0x85
    ||| n == 0xa0
    ||| n == 0x1680
    ||| 0x2000 <= n <= 0x200a
    ||| n == 0x2028
    ||| n == 0x2029
    ||| n == 0x202f
    ||| n == 0x205f
    ||| n == 0x3000
}

/// The two characters that are tokens by themselves.
pub open spec fn is_paren(c: char) -> bool {
    c == '(' || c == ')'
}

/// The token that the pending characters form once a separator or the end of
/// the text is reached: none if there are no pending characters.
pub open spec fn pending_token(pending: Seq<char>) -> Seq<Seq<char>> {
    if pending.len() == 0 {
        seq![]
    } else {
        seq![pending]
    }
}

/// The tokens of `text`, read after the characters `pending` of an unfinished
/// token. Each parenthesis is a token by itself, white space separates
/// tokens and belongs to none, and every other character extends the token
/// it stands in.
pub open spec fn tokens_after(pending: Seq<char>, text: Seq<char>) -> Seq<Seq<char>>
    decreases text.len(),
{
    if text.len() == 0 {
        pending_token(pending)
    } else {
        let c = text[0];
        let rest = text.drop_first();
        if is_paren(c) {
            pending_token(pending) + seq![seq![c]] + tokens_after(Seq::empty(), rest)
        } else if is_space(c) {
            pending_token(pending) + tokens_after(Seq::empty(), rest)
        } else {
            tokens_after(pending.push(c), rest)
        }
    }
}

/// The tokens of a text.
pub open spec fn tokens_of(text: Seq<char>) -> Seq<Seq<char>> {
    tokens_after(Seq::empty(), text)
}


/// `String::push`: appends one character to the string.
#[verifier::external_body]
fn push_char(s: &mut String, c: char)
    ensures
        final(s)@ == old(s)@.push(c),
{
    s.push(c)
}

/// Whether the character separates tokens.
fn char_is_space(c: char) -> (r: bool)
    ensures
        r == is_space(c),
{
    let n: u32 = c as u32;
    (0x09 <= n && n <= 0x0d) || n == 0x20 || n == 0x85 || n == 0xa0 || n == 0x1680 || (0x2000 <= n
        && n <= 0x200a) || n == 0x2028 || n == 0x2029 || n == 0x202f || n == 0x205f || n == 0x3000
}

/// Splits a text into tokens: each parenthesis is a token by itself, and so
/// is each run of other characters between parentheses and white space.
pub fn tokenize(chars: &str) -> (tokens: Vec<String>)
    ensures
        texts(tokens@) == tokens_of(chars@),
{
    let mut tokens: Vec<String> = Vec::new();
    let mut pending = String::new();
    assert(texts(tokens@) == Seq::<Seq<char>>::empty());
    assert(chars@.skip(0) == chars@);
    for c in it: chars.chars()
        invariant
            it.seq() == chars@,
            texts(tokens@) + tokens_after(pending@, chars@.skip(it.index() as int)) == tokens_of(
                chars@,
            ),
    {
        let ghost here = chars@.skip(it.index() as int);
        let ghost before = texts(tokens@);
        let ghost held = pending@;
        proof {
            assert(here.len() > 0);
            assert(here[0] == c);
            assert(here.drop_first() == chars@.skip(it.index() + 1));
        }
        if c == '(' || c == ')' || char_is_space(c) {
            if !pending.as_str().is_empty() {
                tokens.push(pending);
                pending = String::new();
            }
            assert(texts(tokens@) == before + pending_token(held));
            if c == '(' || c == ')' {
                let mut paren = String::new();
                push_char(&mut paren, c);
                assert(paren@ == seq![c]);
                tokens.push(paren);
                assert(texts(tokens@) == before + pending_token(held) + seq![seq![c]]);
            }
            proof {
                let rest = here.drop_first();
                assert(pending@ =~= Seq::<char>::empty());
                let tail = tokens_after(Seq::empty(), rest);
                if is_paren(c) {
                    assert(before + (pending_token(held) + seq![seq![c]] + tail) =~= before
                        + pending_token(held) + seq![seq![c]] + tail);
                } else {
                    assert(before + (pending_token(held) + tail) =~= before + pending_token(held)
                        + tail);
                }
            }
        } else {
            push_char(&mut pending, c);
        }
    }
    let ghost before = texts(tokens@);
    let ghost held = pending@;
    assert(chars@.skip(chars@.len() as int).len() == 0);
    if !pending.as_str().is_empty() {
        tokens.push(pending);
    }
    assert(texts(tokens@) == before + pending_token(held));
    tokens
}

/// The reading of tokens as numbers, as a mathematical function: the
/// encoding of the number that a token denotes, or none if it denotes none.
pub type NumberModel = spec_fn(Seq<char>) -> Option<u64>;

/// Whether `f` may be called on every token, and what it returns is a
/// function of the token's characters.
pub open spec fn number_ready<N: Fn(&str) -> Option<u64>>(f: &N) -> bool {
    &&& forall|t: &str| f.requires((t,))
    &&& forall|t1: &str, t2: &str, r1: Option<u64>, r2: Option<u64>|
        t1@ == t2@ && f.ensures((t1,), r1) && f.ensures((t2,), r2) ==> r1 == r2
}

/// Whether `f` can return `r` for a token with the characters `s`.
pub open spec fn reads_as<N: Fn(&str) -> Option<u64>>(f: &N, s: Seq<char>, r: Option<u64>) -> bool {
    exists|t: &str| t@ == s && #[trigger] f.ensures((t,), r)
}

/// The function that `f` computes.
pub open spec fn number_model<N: Fn(&str) -> Option<u64>>(f: &N) -> NumberModel {
    |s: Seq<char>| choose|r: Option<u64>| reads_as(f, s, r)
}

/// The atom that a token denotes: a number if the token reads as one, and
/// else the symbol of that name.
pub open spec fn atom_model(token: Seq<char>, number: NumberModel) -> ExpModel {
    match number(token) {
        Some(bits) => ExpModel::Number(bits),
        None => ExpModel::Symbol(token),
    }
}

/// The list of the items that were read, or the failure to read them.
pub open spec fn list_of(items: Result<(Seq<ExpModel>, nat), ParseError>) -> Result<
    (ExpModel, nat),
    ParseError,
> {
    match items {
        Ok((items, end)) => Ok((ExpModel::List(items), end)),
        Err(e) => Err(e),
    }
}

/// The expression that starts at token `pos`, and the place of the token
/// after it.
pub open spec fn read_model(tokens: Seq<Seq<char>>, pos: nat, number: NumberModel) -> Result<
    (ExpModel, nat),
    ParseError,
>
    decreases tokens.len() - pos, 0nat,
{
    if pos >= tokens.len() {
        Err(ParseError::UnexpectedEof)
    } else if tokens[pos as int] == "("@ {
        list_of(read_items(tokens, pos + 1, number))
    } else if tokens[pos as int] == ")"@ {
        Err(ParseError::UnmatchedCloseParen)
    } else {
        Ok((atom_model(tokens[pos as int], number), pos + 1))
    }
}

/// The expressions from token `pos` up to the `)` that closes the list they
/// stand in, and the place of the token after that `)`.
pub open spec fn read_items(tokens: Seq<Seq<char>>, pos: nat, number: NumberModel) -> Result<
    (Seq<ExpModel>, nat),
    ParseError,
>
    decreases tokens.len() - pos, 1nat,
{
    if pos >= tokens.len() {
        Err(ParseError::UnexpectedEof)
    } else if tokens[pos as int] == ")"@ {
        Ok((Seq::empty(), pos + 1))
    } else {
        match read_model(tokens, pos, number) {
            Err(e) => Err(e),
            Ok((item, next)) => if next <= pos || next > tokens.len() {
                Err(ParseError::UnexpectedEof)
            } else {
                items_after(seq![item], read_items(tokens, next, number))
            },
        }
    }
}

/// The items `done` followed by the items that `rest` holds, or the failure
/// that it holds.
pub open spec fn items_after(
    done: Seq<ExpModel>,
    rest: Result<(Seq<ExpModel>, nat), ParseError>,
) -> Result<(Seq<ExpModel>, nat), ParseError> {
    match rest {
        Ok((items, end)) => Ok((done + items, end)),
        Err(e) => Err(e),
    }
}

/// The first expression of a text.
pub open spec fn parse_model(text: Seq<char>, number: NumberModel) -> Result<ExpModel, ParseError> {
    match read_model(tokens_of(text), 0, number) {
        Ok((x, _)) => Ok(x),
        Err(e) => Err(e),
    }
}

/// An expression that was read ends after the place where it starts, and
/// within the tokens.
pub proof fn lemma_read_advances(tokens: Seq<Seq<char>>, pos: nat, number: NumberModel)
    ensures
        read_model(tokens, pos, number) matches Ok((_, next)) ==> pos < next <= tokens.len(),
        read_items(tokens, pos, number) matches Ok((_, end)) ==> pos < end <= tokens.len(),
    decreases tokens.len() - pos,
{
    if pos < tokens.len() {
        lemma_read_advances(tokens, pos + 1, number);
        if tokens[pos as int] != "("@ && tokens[pos as int] != ")"@ {
            lemma_read_advances(tokens, pos + 1, number);
        }
        if tokens[pos as int] != ")"@ {
            if let Ok((_, next)) = read_model(tokens, pos, number) {
                if next > pos {
                    lemma_read_advances(tokens, next, number);
                }
            }
        }
    }
}

/// By how much a token changes the nesting: `(` opens a level, `)` closes
/// one.
pub open spec fn nesting_change(token: Seq<char>) -> int {
    if token == "("@ {
        1
    } else if token == ")"@ {
        -1
    } else {
        0
    }
}

/// The nesting after the first `n` tokens: the opening parentheses among
/// them less the closing ones.
pub open spec fn nesting(tokens: Seq<Seq<char>>, n: nat) -> int
    decreases n,
{
    if n == 0 || n > tokens.len() {
        0
    } else {
        nesting(tokens, (n - 1) as nat) + nesting_change(tokens[n - 1])
    }
}

/// Whether the parentheses of the tokens match: no `)` comes without a `(`
/// before it, and none is left open at the end.
pub open spec fn balanced(tokens: Seq<Seq<char>>) -> bool {
    &&& nesting(tokens, tokens.len()) == 0
    &&& forall|k: nat| k <= tokens.len() ==> nesting(tokens, k) >= 0
}

/// An expression that was read leaves the nesting as it found it, and the
/// nesting is higher inside it; the items of a list up to its `)` close one
/// level, and the nesting does not fall below the level of the items
/// before that.
pub proof fn lemma_read_nesting(tokens: Seq<Seq<char>>, pos: nat, number: NumberModel)
    ensures
        read_model(tokens, pos, number) matches Ok((_, next)) ==> {
            &&& nesting(tokens, next) == nesting(tokens, pos)
            &&& forall|k: nat| pos < k < next ==> nesting(tokens, k) > nesting(tokens, pos)
        },
        read_items(tokens, pos, number) matches Ok((_, end)) ==> {
            &&& nesting(tokens, end) == nesting(tokens, pos) - 1
            &&& forall|k: nat| pos <= k < end ==> nesting(tokens, k) >= nesting(tokens, pos)
        },
    decreases tokens.len() - pos,
{
    reveal_strlit("(");
    reveal_strlit(")");
    if pos < tokens.len() {
        lemma_read_advances(tokens, pos, number);
        lemma_read_advances(tokens, pos + 1, number);
        lemma_read_nesting(tokens, pos + 1, number);
        assert(nesting(tokens, pos + 1) == nesting(tokens, pos) + nesting_change(
            tokens[pos as int],
        ));
        assert(read_model(tokens, pos, number) matches Ok((_, next)) ==> {
            &&& nesting(tokens, next) == nesting(tokens, pos)
            &&& forall|k: nat| pos < k < next ==> nesting(tokens, k) > nesting(tokens, pos)
        });
        assert("("@[0] != ")"@[0]);
        if tokens[pos as int] != ")"@ {
            if let Ok((_, next)) = read_model(tokens, pos, number) {
                if pos < next <= tokens.len() {
                    lemma_read_nesting(tokens, next, number);
                    lemma_read_advances(tokens, next, number);
                    if let Ok((_, end)) = read_items(tokens, next, number) {
                        assert(read_items(tokens, pos, number) matches Ok((_, e)) && e == end);
                        assert forall|k: nat| pos <= k < end implies nesting(tokens, k) >= nesting(
                            tokens,
                            pos,
                        ) by {
                            if k == pos {
                            } else if k < next {
                            } else {
                            }
                        }
                    }
                }
            }
        }
    }
}

/// The nesting after `n` tokens depends on those tokens only.
pub proof fn lemma_nesting_prefix(tokens: Seq<Seq<char>>, cut: nat, n: nat)
    requires
        n <= cut <= tokens.len(),
    ensures
        nesting(tokens.take(cut as int), n) == nesting(tokens, n),
    decreases n,
{
    if n > 0 {
        lemma_nesting_prefix(tokens, cut, (n - 1) as nat);
    }
}

/// Reading never returns part of an expression: what was read is a symbol,
/// a number or a list, and the tokens that it was read from are balanced.
pub proof fn lemma_read_is_balanced(tokens: Seq<Seq<char>>, number: NumberModel)
    ensures
        read_model(tokens, 0, number) matches Ok((x, next)) ==> {
            &&& next <= tokens.len()
            &&& balanced(tokens.take(next as int))
            &&& (x is Symbol || x is Number || x is List)
        },
{
    if let Ok((x, next)) = read_model(tokens, 0, number) {
        lemma_read_advances(tokens, 0, number);
        lemma_read_nesting(tokens, 0, number);
        let prefix = tokens.take(next as int);
        assert forall|k: nat| k <= prefix.len() implies nesting(prefix, k) >= 0 by {
            lemma_nesting_prefix(tokens, next, k);
        }
        lemma_nesting_prefix(tokens, next, next);
    }
}

/// Tokens whose parentheses do not match do not read as an expression.
/// This is said of tokens that are read to their end: where a complete
/// expression stands before further tokens, that expression is read and
/// the rest is not looked at.
pub proof fn lemma_unbalanced_fails(tokens: Seq<Seq<char>>, number: NumberModel)
    requires
        !balanced(tokens),
        read_model(tokens, 0, number) matches Ok((_, next)) ==> next == tokens.len(),
    ensures
        read_model(tokens, 0, number) is Err,
{
    lemma_read_is_balanced(tokens, number);
    assert(tokens.take(tokens.len() as int) =~= tokens);
}

/// A text whose parentheses do not match is not parsed, if it is read to its
/// end.
pub proof fn lemma_unbalanced_text_fails(text: Seq<char>, number: NumberModel)
    requires
        !balanced(tokens_of(text)),
        read_model(tokens_of(text), 0, number) matches Ok((_, next)) ==> next == tokens_of(
            text,
        ).len(),
    ensures
        parse_model(text, number) is Err,
{
    lemma_unbalanced_fails(tokens_of(text), number);
}

/// What `f` returned for a token is what its model gives for the token's
/// characters.
proof fn lemma_number_model<N: Fn(&str) -> Option<u64>>(f: &N, token: &str, r: Option<u64>)
    requires
        number_ready(f),
        f.ensures((token,), r),
    ensures
        number_model(f)(token@) == r,
{
    let s = token@;
    assert(reads_as(f, s, r));
    let chosen = choose|r2: Option<u64>| reads_as(f, s, r2);
    let t2 = choose|t: &str| t@ == s && #[trigger] f.ensures((t,), chosen);
    assert(t2@ == token@ && f.ensures((t2,), chosen));
}

/// The atom of a token that was read as `reading`: that number, or where it
/// was read as none, the symbol of the token's name.
pub fn atom_of(token: &str, reading: Option<u64>) -> (x: Exp)
    ensures
        x@ == match reading {
            Some(bits) => ExpModel::Number(bits),
            None => ExpModel::Symbol(token@),
        },
{
    match reading {
        Some(bits) => Exp::Number(bits),
        None => Exp::Symbol(String::from_str(token)),
    }
}

/// Turns a token that is no parenthesis into an atom: `number` says
/// whether the token is a number, and which.
pub fn atom<N: Fn(&str) -> Option<u64>>(token: &str, number: &N) -> (x: Exp)
    requires
        number_ready(number),
    ensures
        x@ == atom_model(token@, number_model(number)),
{
    let reading = number(token);
    proof {
        lemma_number_model(number, token, reading);
    }
    atom_of(token, reading)
}

/// Reads the expression that starts at token `pos`, and returns it with the
/// place of the token after it.
pub fn read_from_tokens<N: Fn(&str) -> Option<u64>>(tokens: &Vec<String>, pos: usize, number: &N) -> (r:
    Result<(Exp, usize), ParseError>)
    requires
        number_ready(number),
    ensures
        match r {
            Ok((x, next)) => read_model(texts(tokens@), pos as nat, number_model(number)) == Ok::<
                (ExpModel, nat),
                ParseError,
            >((x@, next as nat)),
            Err(e) => read_model(texts(tokens@), pos as nat, number_model(number)) == Err::<
                (ExpModel, nat),
                ParseError,
            >(e),
        },
    decreases tokens.len() - pos,
{
    let ghost words = texts(tokens@);
    let ghost m = number_model(number);
    if pos >= tokens.len() {
        return Err(ParseError::UnexpectedEof);
    }
    assert(words[pos as int] == tokens@[pos as int]@);
    let token = tokens[pos].as_str();
    if same_text(token, "(") {
        let mut items: Vec<Exp> = Vec::new();
        let mut at: usize = pos + 1;
        proof {
            assert(exps_model(items) =~= Seq::<ExpModel>::empty());
            let rest = read_items(words, at as nat, m);
            if let Ok((more, end)) = rest {
                assert(Seq::<ExpModel>::empty() + more =~= more);
            }
        }
        loop
            invariant
                number_ready(number),
                words == texts(tokens@),
                m == number_model(number),
                pos < at <= tokens.len(),
                read_model(words, pos as nat, m) == list_of(
                    read_items(words, (pos + 1) as nat, m),
                ),
                items_after(exps_model(items), read_items(words, at as nat, m)) == read_items(
                    words,
                    (pos + 1) as nat,
                    m,
                ),
            decreases tokens.len() - at,
        {
            if at >= tokens.len() {
                return Err(ParseError::UnexpectedEof);
            }
            assert(words[at as int] == tokens@[at as int]@);
            if same_text(tokens[at].as_str(), ")") {
                proof {
                    assert(exps_model(items) + Seq::<ExpModel>::empty() =~= exps_model(items));
                }
                return Ok((Exp::List(items), at + 1));
            }
            let ghost done = exps_model(items);
            match read_from_tokens(tokens, at, number) {
                Ok((item, next)) => {
                    proof {
                        lemma_read_advances(words, at as nat, m);
                    }
                    items.push(item);
                    proof {
                        assert(exps_model(items) =~= done + seq![item@]);
                        let tail = read_items(words, next as nat, m);
                        if let Ok((more, end)) = tail {
                            assert(done + (seq![item@] + more) =~= (done + seq![item@]) + more);
                        }
                    }
                    at = next;
                },
                Err(e) => {
                    return Err(e);
                },
            }
        }
    } else if same_text(token, ")") {
        Err(ParseError::UnmatchedCloseParen)
    } else {
        Ok((atom(token, number), pos + 1))
    }
}

/// Reads the first expression of a text; what follows it is not looked at.
/// `number` says which tokens are numbers, and which numbers they are.
pub fn parse<N: Fn(&str) -> Option<u64>>(program: &str, number: &N) -> (r: Result<Exp, ParseError>)
    requires
        number_ready(number),
    ensures
        match r {
            Ok(x) => parse_model(program@, number_model(number)) == Ok::<ExpModel, ParseError>(x@),
            Err(e) => parse_model(program@, number_model(number)) == Err::<ExpModel, ParseError>(e),
        },
{
    let tokens = tokenize(program);
    match read_from_tokens(&tokens, 0, number) {
        Ok((x, _)) => Ok(x),
        Err(e) => Err(e),
    }
}

} // verus!

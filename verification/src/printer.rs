//! The textual form of expressions, and what reading it back gives.

use crate::error::ParseError;
use crate::expr::{exps_model, lemma_model_shape, Exp, ExpModel};
use crate::reader::{
    atom_model, is_paren, is_space, parse_model, read_items, read_model, tokens_after, tokens_of,
    NumberModel,
};
use vstd::prelude::*;
use vstd::string::StringExecFns;

verus! {

/// The printing of numbers, as a mathematical function from encodings to
/// texts.
pub type ShowModel = spec_fn(u64) -> Seq<char>;

/// Whether `f` may be called on every encoding, and the text that it
/// returns is a function of the encoding.
pub open spec fn show_ready<S: Fn(u64) -> String>(f: &S) -> bool {
    &&& forall|n: u64| f.requires((n,))
    &&& forall|n: u64, r1: String, r2: String|
        f.ensures((n,), r1) && f.ensures((n,), r2) ==> r1@ == r2@
}

/// Whether `f` can return the text `s` for the encoding `n`.
pub open spec fn shows_as<S: Fn(u64) -> String>(f: &S, n: u64, s: Seq<char>) -> bool {
    exists|r: String| r@ == s && #[trigger] f.ensures((n,), r)
}

/// The function that `f` computes.
pub open spec fn show_model<S: Fn(u64) -> String>(f: &S) -> ShowModel {
    |n: u64| choose|s: Seq<char>| shows_as(f, n, s)
}

/// The text of an expression: a symbol is its name, a number is what `show`
/// makes of it, a list is its items between parentheses with one space
/// between neighbours, and procedures print as placeholders.
pub open spec fn text_model(x: ExpModel, show: ShowModel) -> Seq<char>
    decreases x, 0nat,
{
    match x {
        ExpModel::Symbol(name) => name,
        ExpModel::Number(n) => show(n),
        ExpModel::List(items) => "("@ + joined(items, items.len(), show) + ")"@,
        ExpModel::Proc(_) => "<procedure>"@,
        ExpModel::Lambda(_, _, _) => "<lambda>"@,
    }
}

/// The texts of the first `n` items, with one space between neighbours.
pub open spec fn joined(items: Seq<ExpModel>, n: nat, show: ShowModel) -> Seq<char>
    decreases items, n,
{
    if n == 0 || n > items.len() {
        Seq::empty()
    } else if n == 1 {
        text_model(items[0], show)
    } else {
        joined(items, (n - 1) as nat, show) + " "@ + text_model(items[n - 1], show)
    }
}

/// What `f` returned for an encoding is what its model gives for it.
proof fn lemma_show_model<S: Fn(u64) -> String>(f: &S, n: u64, r: String)
    requires
        show_ready(f),
        f.ensures((n,), r),
    ensures
        show_model(f)(n) == r@,
{
    assert(shows_as(f, n, r@));
    let chosen = choose|s: Seq<char>| shows_as(f, n, s);
    let r2 = choose|r2: String| r2@ == chosen && #[trigger] f.ensures((n,), r2);
    assert(r2@ == chosen && f.ensures((n,), r2));
}

impl Exp {
    /// The text of the expression. `show` gives the text of each number.
    pub fn to_text<S: Fn(u64) -> String>(&self, show: &S) -> (r: String)
        requires
            show_ready(show),
        ensures
            r@ == text_model(self@, show_model(show)),
        decreases self,
    {
        proof {
            lemma_model_shape(*self);
        }
        match self {
            Exp::Symbol(name) => name.clone(),
            Exp::Number(n) => {
                let r = show(*n);
                proof {
                    lemma_show_model(show, *n, r);
                }
                r
            },
            Exp::List(items) => {
                let ghost models = exps_model(*items);
                let ghost m = show_model(show);
                let mut r = String::from_str("(");
                let mut i: usize = 0;
                assert("("@ + joined(models, 0, m) =~= "("@);
                while i < items.len()
                    invariant
                        show_ready(show),
                        *self == Exp::List(*items),
                        models == exps_model(*items),
                        m == show_model(show),
                        i <= items.len(),
                        r@ == "("@ + joined(models, i as nat, m),
                    decreases items.len() - i,
                {
                    let ghost before = r@;
                    if i > 0 {
                        r.append(" ");
                    }
                    proof {
                        vstd::std_specs::vec::axiom_vec_index_decreases(*items, i as int);
                        assert(self->List_0 == *items);
                        assert(models[i as int] == items@[i as int]@);
                    }
                    let item = items[i].to_text(show);
                    r.append(item.as_str());
                    proof {
                        let head = joined(models, i as nat, m);
                        let text = text_model(models[i as int], m);
                        if i > 0 {
                            assert(("("@ + head) + " "@ + text =~= "("@ + (head + " "@ + text));
                        } else {
                            assert(head =~= Seq::<char>::empty());
                            assert(("("@ + head) + text =~= "("@ + text);
                        }
                    }
                    i += 1;
                }
                r.append(")");
                r
            },
            Exp::Proc(_) => String::from_str("<procedure>"),
            Exp::Lambda(_, _, _) => String::from_str("<lambda>"),
        }
    }
}

/// Whether a text is one token: not empty, and free of white space and of
/// parentheses.
pub open spec fn is_word(s: Seq<char>) -> bool {
    &&& s.len() > 0
    &&& forall|i: int| 0 <= i < s.len() ==> !is_space(#[trigger] s[i]) && !is_paren(s[i])
}

/// Whether the number with encoding `n` survives printing and reading: its
/// text is one token, and that token reads as `n` again.
pub open spec fn reads_back(n: u64, show: ShowModel, number: NumberModel) -> bool {
    is_word(show(n)) && number(show(n)) == Some(n)
}

/// Whether every item is a number that survives printing and reading.
pub open spec fn numbers_that_read_back(
    items: Seq<ExpModel>,
    show: ShowModel,
    number: NumberModel,
) -> bool {
    forall|i: int|
        0 <= i < items.len() ==> (#[trigger] items[i]) is Number && reads_back(
            items[i]->Number_0,
            show,
            number,
        )
}

/// The texts of the first `n` items, which are numbers.
pub open spec fn number_words(items: Seq<ExpModel>, n: nat, show: ShowModel) -> Seq<Seq<char>> {
    Seq::new(n, |i: int| show(items[i]->Number_0))
}

/// Characters that are neither white space nor parentheses, standing before
/// `rest`, extend the pending token.
proof fn lemma_word_extends(pending: Seq<char>, word: Seq<char>, rest: Seq<char>)
    requires
        forall|i: int| 0 <= i < word.len() ==> !is_space(#[trigger] word[i]) && !is_paren(word[i]),
    ensures
        tokens_after(pending, word + rest) == tokens_after(pending + word, rest),
    decreases word.len(),
{
    if word.len() == 0 {
        assert(word + rest =~= rest);
        assert(pending + word =~= pending);
    } else {
        let text = word + rest;
        assert(text[0] == word[0]);
        assert(text.drop_first() =~= word.drop_first() + rest);
        lemma_word_extends(pending.push(word[0]), word.drop_first(), rest);
        assert(pending.push(word[0]) + word.drop_first() =~= pending + word);
    }
}

/// The tokens of the first `n` numbers of a list, printed and followed by
/// `tail`, are the texts of the first `n - 1` and then what the last text
/// and `tail` give.
proof fn lemma_joined_tokens(
    items: Seq<ExpModel>,
    n: nat,
    show: ShowModel,
    number: NumberModel,
    tail: Seq<char>,
)
    requires
        1 <= n <= items.len(),
        numbers_that_read_back(items, show, number),
    ensures
        tokens_after(Seq::empty(), joined(items, n, show) + tail) == number_words(
            items,
            (n - 1) as nat,
            show,
        ) + tokens_after(show(items[n - 1]->Number_0), tail),
    decreases n,
{
    let last = show(items[n - 1]->Number_0);
    assert(items[n - 1] is Number);
    assert(text_model(items[n - 1], show) == last);
    if n == 1 {
        assert(items[0] is Number);
        lemma_word_extends(Seq::empty(), last, tail);
        assert(Seq::<char>::empty() + last =~= last);
        assert(number_words(items, 0, show) =~= Seq::<Seq<char>>::empty());
        assert(number_words(items, 0, show) + tokens_after(last, tail) =~= tokens_after(last, tail));
    } else {
        reveal_strlit(" ");
        let before = show(items[n - 2]->Number_0);
        assert(items[n - 2] is Number);
        let head = joined(items, (n - 1) as nat, show);
        let more = " "@ + last + tail;
        assert(joined(items, n, show) + tail =~= head + more);
        lemma_joined_tokens(items, (n - 1) as nat, show, number, more);
        assert(more[0] == ' ');
        assert(more.drop_first() =~= last + tail);
        lemma_word_extends(Seq::empty(), last, tail);
        assert(Seq::<char>::empty() + last =~= last);
        assert(tokens_after(before, more) == seq![before] + tokens_after(last, tail));
        assert(number_words(items, (n - 2) as nat, show) + (seq![before] + tokens_after(
            last,
            tail,
        )) =~= number_words(items, (n - 1) as nat, show) + tokens_after(last, tail));
    }
}

/// The tokens of a printed list of numbers: `(`, the text of each number,
/// `)`.
proof fn lemma_list_tokens(items: Seq<ExpModel>, show: ShowModel, number: NumberModel)
    requires
        numbers_that_read_back(items, show, number),
    ensures
        tokens_of(text_model(ExpModel::List(items), show)) == seq!["("@] + number_words(
            items,
            items.len(),
            show,
        ) + seq![")"@],
{
    reveal_strlit("(");
    reveal_strlit(")");
    let n = items.len();
    let body = joined(items, n, show);
    let text = text_model(ExpModel::List(items), show);
    assert(text == "("@ + body + ")"@);
    assert(text[0] == '(');
    assert(text.drop_first() =~= body + ")"@);
    assert(seq!['('] =~= "("@);
    assert(seq![')'] =~= ")"@);
    let close = ")"@;
    assert(close[0] == ')');
    assert(close.drop_first() =~= Seq::<char>::empty());
    assert(tokens_after(Seq::empty(), Seq::empty()) =~= Seq::<Seq<char>>::empty());
    assert(tokens_after(Seq::empty(), close) =~= seq![close]);
    if n == 0 {
        assert(body =~= Seq::<char>::empty());
        assert(body + ")"@ =~= ")"@);
        assert(number_words(items, 0, show) =~= Seq::<Seq<char>>::empty());
        assert(tokens_of(text) =~= seq!["("@] + seq![close]);
        assert(tokens_of(text) =~= seq!["("@] + number_words(items, n, show) + seq![")"@]);
    } else {
        let last = show(items[n - 1]->Number_0);
        assert(items[n - 1] is Number);
        lemma_joined_tokens(items, n, show, number, close);
        assert(tokens_after(last, close) =~= seq![last] + seq![")"@]);
        assert(number_words(items, (n - 1) as nat, show) + (seq![last] + seq![")"@])
            =~= number_words(items, n, show) + seq![")"@]);
        assert(tokens_of(text) =~= seq!["("@] + number_words(items, n, show) + seq![")"@]);
    }
}

/// Reading the texts of numbers from the `k`-th on, up to the closing
/// parenthesis, gives those numbers.
proof fn lemma_read_number_words(
    items: Seq<ExpModel>,
    k: nat,
    show: ShowModel,
    number: NumberModel,
)
    requires
        numbers_that_read_back(items, show, number),
        k <= items.len(),
    ensures
        read_items(
            seq!["("@] + number_words(items, items.len(), show) + seq![")"@],
            1 + k,
            number,
        ) == Ok::<(Seq<ExpModel>, nat), ParseError>((items.skip(k as int), items.len() + 2)),
    decreases items.len() - k,
{
    reveal_strlit("(");
    reveal_strlit(")");
    let n = items.len();
    let tokens = seq!["("@] + number_words(items, n, show) + seq![")"@];
    assert(tokens.len() == n + 2);
    if k == n {
        assert(tokens[1 + k as int] == ")"@);
        assert(items.skip(k as int) =~= Seq::<ExpModel>::empty());
    } else {
        let word = show(items[k as int]->Number_0);
        assert(items[k as int] is Number);
        assert(tokens[1 + k as int] == word);
        assert(!is_paren(word[0]));
        assert(word != "("@);
        assert(word != ")"@);
        assert(atom_model(word, number) == items[k as int]);
        assert(read_model(tokens, 1 + k, number) == Ok::<(ExpModel, nat), ParseError>(
            (items[k as int], 2 + k),
        ));
        lemma_read_number_words(items, k + 1, show, number);
        assert(read_items(tokens, 2 + k, number) == Ok::<(Seq<ExpModel>, nat), ParseError>(
            (items.skip(k as int + 1), n + 2),
        ));
        assert(seq![items[k as int]] + items.skip(k as int + 1) =~= items.skip(k as int));
    }
}

/// Printing a number and reading the text back gives the number again, if
/// the text of the number is one token that reads as that number.
pub proof fn lemma_number_round_trip(n: u64, show: ShowModel, number: NumberModel)
    requires
        reads_back(n, show, number),
    ensures
        parse_model(text_model(ExpModel::Number(n), show), number) == Ok::<ExpModel, ParseError>(
            ExpModel::Number(n),
        ),
{
    reveal_strlit("(");
    reveal_strlit(")");
    let word = show(n);
    lemma_word_extends(Seq::empty(), word, Seq::empty());
    assert(word + Seq::<char>::empty() =~= word);
    assert(Seq::<char>::empty() + word =~= word);
    assert(tokens_of(word) =~= seq![word]);
    assert(!is_paren(word[0]));
    assert(word != "("@);
    assert(word != ")"@);
}

/// Printing a list of numbers and reading the text back gives the list
/// again, if the text of each of its numbers is one token that reads as
/// that number.
pub proof fn lemma_list_round_trip(items: Seq<ExpModel>, show: ShowModel, number: NumberModel)
    requires
        numbers_that_read_back(items, show, number),
    ensures
        parse_model(text_model(ExpModel::List(items), show), number) == Ok::<ExpModel, ParseError>(
            ExpModel::List(items),
        ),
{
    lemma_list_tokens(items, show, number);
    lemma_read_number_words(items, 0, show, number);
    assert(items.skip(0) =~= items);
    let tokens = seq!["("@] + number_words(items, items.len(), show) + seq![")"@];
    assert(tokens[0] == "("@);
}

/// Whether an expression is a number, or a list of numbers, of which each
/// survives printing and reading.
pub open spec fn numbers_reading_back(x: ExpModel, show: ShowModel, number: NumberModel) -> bool {
    match x {
        ExpModel::Number(n) => reads_back(n, show, number),
        ExpModel::List(items) => numbers_that_read_back(items, show, number),
        _ => false,
    }
}

/// Printing a number or a list of numbers and parsing the text gives an
/// equal expression, where the text of each number is a single token that
/// reads as the same number.
pub proof fn lemma_round_trip(x: ExpModel, show: ShowModel, number: NumberModel)
    requires
        numbers_reading_back(x, show, number),
    ensures
        parse_model(text_model(x, show), number) == Ok::<ExpModel, ParseError>(x),
{
    match x {
        ExpModel::Number(n) => lemma_number_round_trip(n, show, number),
        ExpModel::List(items) => lemma_list_round_trip(items, show, number),
        _ => {},
    }
}

} // verus!

//! The combinator core: a parser abstraction and its composition
//! operators, with no knowledge of JSON.
//!
//! A parser consumes a prefix of the remaining input and either
//! succeeds, returning the position to resume from together with an
//! output, or fails, returning the position at which parsing could not
//! proceed.  The behaviour of every parser is pinned down by its
//! `spec_parse` function over the input's character sequence; the
//! executable `parse` method is proved to agree with it exactly, on
//! success and on failure alike.
//!
//! Combinators build new parsers out of existing ones: sequencing
//! ([`Pair`], [`Left`], [`Right`]), transformation ([`Mapped`]),
//! monadic continuation ([`AndThen`]), alternation ([`Either`]),
//! repetition ([`ZeroOrOne`], [`ZeroOrMore`], [`OneOrMore`]) and
//! predicate filtering ([`PredFilter`]).  Parsers are stateless:
//! the outcome is a function of the parser value and the input alone.
//!
//! One deliberate divergence from naive greedy repetition: a repetition
//! stops at an inner success that consumes nothing, since running such
//! a parser again could never terminate.

use vstd::prelude::*;

verus! {

broadcast use vstd::seq::group_seq_axioms;

/// A parser from input position to either (resume position, output)
/// or the position of failure.
///
/// `Model` is the spec-level type of the output (`Seq<char>` for
/// `String`, and so on); `Output` is the executable output type, tied
/// to `Model` through `DeepView`.
pub trait Parser: Sized {
    /// Spec-level output type.
    type Model;

    /// Executable output type.
    type Output: DeepView<V = Self::Model>;

    /// What this parser does, as a total function over the input
    /// characters and the start position: `Ok((j, v))` means the
    /// characters from `i` to `j` were consumed producing `v`;
    /// `Err(e)` means failure at position `e`.
    spec fn spec_parse(&self, s: Seq<char>, i: int) -> Result<(int, Self::Model), int>;

    /// Consumption is monotonic and never leaves the input: a success
    /// resumes no earlier than it started and no later than the end,
    /// and a failure position lies in the same range.
    proof fn lemma_parse_bounds(&self, s: Seq<char>, i: int)
        requires
            0 <= i <= s.len(),
        ensures
            self.spec_parse(s, i) matches Ok((j, _)) ==> i <= j <= s.len(),
            self.spec_parse(s, i) matches Err(e) ==> i <= e <= s.len(),
    ;

    /// Run the parser on `input` starting at character position `pos`.
    fn parse(&self, input: &str, pos: usize) -> (r: Result<(usize, Self::Output), usize>)
        requires
            pos <= input@.len(),
            input@.len() <= usize::MAX,
        ensures
            match self.spec_parse(input@, pos as int) {
                Ok((j, v)) => (r matches Ok(p) && p.0 as int == j && p.1.deep_view() == v),
                Err(e) => (r matches Err(q) && q as int == e),
            },
    ;
}

/// A pure transformation applied to a parser's output.
pub trait MapFn {
    /// Spec-level argument type.
    type InModel;

    /// Executable argument type.
    type In: DeepView<V = Self::InModel>;

    /// Spec-level result type.
    type OutModel;

    /// Executable result type.
    type Out: DeepView<V = Self::OutModel>;

    /// What the transformation computes, over models.
    spec fn spec_apply(&self, m: Self::InModel) -> Self::OutModel;

    /// Apply the transformation.
    fn apply(&self, x: Self::In) -> (r: Self::Out)
        ensures
            r.deep_view() == self.spec_apply(x.deep_view()),
    ;
}

/// A test applied to a parser's output.
pub trait PredFn {
    /// Spec-level argument type.
    type InModel;

    /// Executable argument type.
    type In: DeepView<V = Self::InModel>;

    /// What the test decides, over models.
    spec fn spec_test(&self, m: Self::InModel) -> bool;

    /// Apply the test.
    fn test(&self, x: &Self::In) -> (r: bool)
        ensures
            r == self.spec_test(x.deep_view()),
    ;
}

/// A continuation that picks the next parser from an output.
pub trait ThenFn {
    /// Spec-level argument type.
    type InModel;

    /// Executable argument type.
    type In: DeepView<V = Self::InModel>;

    /// The parser the continuation produces.
    type Next: Parser;

    /// Which parser is produced, over models.
    spec fn spec_apply(&self, m: Self::InModel) -> Self::Next;

    /// Produce the next parser.
    fn apply(&self, x: Self::In) -> (r: Self::Next)
        ensures
            r == self.spec_apply(x.deep_view()),
    ;
}

/// A continuation that ignores its argument and always continues with
/// the same parser: sequencing, written as a bind.
#[derive(Clone, Copy)]
pub struct ThenConst<P> {
    pub next: P,
}

impl<P: Parser + Copy> ThenFn for ThenConst<P> {
    type InModel = ();

    type In = ();

    type Next = P;

    open spec fn spec_apply(&self, m: ()) -> P {
        self.next
    }

    fn apply(&self, x: ()) -> (r: P) {
        self.next
    }
}

/// Runs two parsers in series and produces the pair of their outputs.
#[derive(Clone, Copy)]
pub struct Pair<P1, P2> {
    pub first: P1,
    pub second: P2,
}

/// Run two parsers in series to produce a combined result of their outputs.
pub fn pair<P1: Parser, P2: Parser>(first: P1, second: P2) -> (r: Pair<P1, P2>)
    ensures
        r == (Pair { first, second }),
{
    Pair { first, second }
}

impl<P1: Parser, P2: Parser> Parser for Pair<P1, P2> {
    type Model = (P1::Model, P2::Model);

    type Output = (P1::Output, P2::Output);

    open spec fn spec_parse(&self, s: Seq<char>, i: int) -> Result<
        (int, (P1::Model, P2::Model)),
        int,
    > {
        match self.first.spec_parse(s, i) {
            Ok((j, v1)) => match self.second.spec_parse(s, j) {
                Ok((k, v2)) => Ok((k, (v1, v2))),
                Err(e) => Err(e),
            },
            Err(e) => Err(e),
        }
    }

    proof fn lemma_parse_bounds(&self, s: Seq<char>, i: int) {
        self.first.lemma_parse_bounds(s, i);
        if let Ok((j, _)) = self.first.spec_parse(s, i) {
            self.second.lemma_parse_bounds(s, j);
        }
    }

    fn parse(&self, input: &str, pos: usize) -> (r: Result<
        (usize, (P1::Output, P2::Output)),
        usize,
    >) {
        proof {
            self.first.lemma_parse_bounds(input@, pos as int);
        }
        match self.first.parse(input, pos) {
            Ok((mid, out1)) => {
                proof {
                    self.second.lemma_parse_bounds(input@, mid as int);
                }
                match self.second.parse(input, mid) {
                    Ok((end, out2)) => Ok((end, (out1, out2))),
                    Err(e) => Err(e),
                }
            },
            Err(e) => Err(e),
        }
    }
}

/// Runs two parsers in series and keeps only the left output.
#[derive(Clone, Copy)]
pub struct Left<P1, P2> {
    pub first: P1,
    pub second: P2,
}

/// Combines two parsers and takes the left element of the result.
pub fn left<P1: Parser, P2: Parser>(first: P1, second: P2) -> (r: Left<P1, P2>)
    ensures
        r == (Left { first, second }),
{
    Left { first, second }
}

impl<P1: Parser, P2: Parser> Parser for Left<P1, P2> {
    type Model = P1::Model;

    type Output = P1::Output;

    open spec fn spec_parse(&self, s: Seq<char>, i: int) -> Result<(int, P1::Model), int> {
        match self.first.spec_parse(s, i) {
            Ok((j, v1)) => match self.second.spec_parse(s, j) {
                Ok((k, _)) => Ok((k, v1)),
                Err(e) => Err(e),
            },
            Err(e) => Err(e),
        }
    }

    proof fn lemma_parse_bounds(&self, s: Seq<char>, i: int) {
        self.first.lemma_parse_bounds(s, i);
        if let Ok((j, _)) = self.first.spec_parse(s, i) {
            self.second.lemma_parse_bounds(s, j);
        }
    }

    fn parse(&self, input: &str, pos: usize) -> (r: Result<(usize, P1::Output), usize>) {
        proof {
            self.first.lemma_parse_bounds(input@, pos as int);
        }
        match self.first.parse(input, pos) {
            Ok((mid, out1)) => {
                proof {
                    self.second.lemma_parse_bounds(input@, mid as int);
                }
                match self.second.parse(input, mid) {
                    Ok((end, _)) => Ok((end, out1)),
                    Err(e) => Err(e),
                }
            },
            Err(e) => Err(e),
        }
    }
}

/// Runs two parsers in series and keeps only the right output.
#[derive(Clone, Copy)]
pub struct Right<P1, P2> {
    pub first: P1,
    pub second: P2,
}

/// Combines two parsers and takes the right element of the result.
pub fn right<P1: Parser, P2: Parser>(first: P1, second: P2) -> (r: Right<P1, P2>)
    ensures
        r == (Right { first, second }),
{
    Right { first, second }
}

impl<P1: Parser, P2: Parser> Parser for Right<P1, P2> {
    type Model = P2::Model;

    type Output = P2::Output;

    open spec fn spec_parse(&self, s: Seq<char>, i: int) -> Result<(int, P2::Model), int> {
        match self.first.spec_parse(s, i) {
            Ok((j, _)) => match self.second.spec_parse(s, j) {
                Ok((k, v2)) => Ok((k, v2)),
                Err(e) => Err(e),
            },
            Err(e) => Err(e),
        }
    }

    proof fn lemma_parse_bounds(&self, s: Seq<char>, i: int) {
        self.first.lemma_parse_bounds(s, i);
        if let Ok((j, _)) = self.first.spec_parse(s, i) {
            self.second.lemma_parse_bounds(s, j);
        }
    }

    fn parse(&self, input: &str, pos: usize) -> (r: Result<(usize, P2::Output), usize>) {
        proof {
            self.first.lemma_parse_bounds(input@, pos as int);
        }
        match self.first.parse(input, pos) {
            Ok((mid, _)) => {
                proof {
                    self.second.lemma_parse_bounds(input@, mid as int);
                }
                match self.second.parse(input, mid) {
                    Ok((end, out2)) => Ok((end, out2)),
                    Err(e) => Err(e),
                }
            },
            Err(e) => Err(e),
        }
    }
}

/// Applies a transformation to the output of a parser.
#[derive(Clone, Copy)]
pub struct Mapped<P, F> {
    pub parser: P,
    pub trans: F,
}

/// Changes the type of the result using a mapping function.
pub fn mapped<P: Parser, F: MapFn<In = P::Output, InModel = P::Model>>(parser: P, trans: F) -> (r:
    Mapped<P, F>)
    ensures
        r == (Mapped { parser, trans }),
{
    Mapped { parser, trans }
}

impl<P: Parser, F: MapFn<In = P::Output, InModel = P::Model>> Parser for Mapped<P, F> {
    type Model = F::OutModel;

    type Output = F::Out;

    open spec fn spec_parse(&self, s: Seq<char>, i: int) -> Result<(int, F::OutModel), int> {
        match self.parser.spec_parse(s, i) {
            Ok((j, v)) => Ok((j, self.trans.spec_apply(v))),
            Err(e) => Err(e),
        }
    }

    proof fn lemma_parse_bounds(&self, s: Seq<char>, i: int) {
        self.parser.lemma_parse_bounds(s, i);
    }

    fn parse(&self, input: &str, pos: usize) -> (r: Result<(usize, F::Out), usize>) {
        match self.parser.parse(input, pos) {
            Ok((j, out)) => Ok((j, self.trans.apply(out))),
            Err(e) => Err(e),
        }
    }
}

/// Runs a parser, then lets a continuation pick the parser for the
/// rest of the input from the first output (monadic bind).
#[derive(Clone, Copy)]
pub struct AndThen<P, F> {
    pub parser: P,
    pub cont: F,
}

/// Runs two parsers in sequence, passing the result of the first
/// parser into the second.
pub fn and_then<P: Parser, F: ThenFn<In = P::Output, InModel = P::Model>>(parser: P, cont: F) -> (r:
    AndThen<P, F>)
    ensures
        r == (AndThen { parser, cont }),
{
    AndThen { parser, cont }
}

impl<P: Parser, F: ThenFn<In = P::Output, InModel = P::Model>> Parser for AndThen<P, F> {
    type Model = <F::Next as Parser>::Model;

    type Output = <F::Next as Parser>::Output;

    open spec fn spec_parse(&self, s: Seq<char>, i: int) -> Result<
        (int, <F::Next as Parser>::Model),
        int,
    > {
        match self.parser.spec_parse(s, i) {
            Ok((j, v)) => self.cont.spec_apply(v).spec_parse(s, j),
            Err(e) => Err(e),
        }
    }

    proof fn lemma_parse_bounds(&self, s: Seq<char>, i: int) {
        self.parser.lemma_parse_bounds(s, i);
        if let Ok((j, v)) = self.parser.spec_parse(s, i) {
            self.cont.spec_apply(v).lemma_parse_bounds(s, j);
        }
    }

    fn parse(&self, input: &str, pos: usize) -> (r: Result<
        (usize, <F::Next as Parser>::Output),
        usize,
    >) {
        proof {
            self.parser.lemma_parse_bounds(input@, pos as int);
        }
        match self.parser.parse(input, pos) {
            Ok((j, out)) => {
                let next = self.cont.apply(out);
                next.parse(input, j)
            },
            Err(e) => Err(e),
        }
    }
}

/// Tries the first parser; if it fails, tries the second on the very
/// same input position.
#[derive(Clone, Copy)]
pub struct Either<P1, P2> {
    pub first: P1,
    pub second: P2,
}

/// Tries the two parsers, in order, only using the second parser
/// provided the first parser fails.
pub fn either<P1: Parser, P2: Parser<Model = P1::Model, Output = P1::Output>>(
    first: P1,
    second: P2,
) -> (r: Either<P1, P2>)
    ensures
        r == (Either { first, second }),
{
    Either { first, second }
}

impl<P1: Parser, P2: Parser<Model = P1::Model, Output = P1::Output>> Parser for Either<P1, P2> {
    type Model = P1::Model;

    type Output = P1::Output;

    open spec fn spec_parse(&self, s: Seq<char>, i: int) -> Result<(int, P1::Model), int> {
        match self.first.spec_parse(s, i) {
            Ok((j, v)) => Ok((j, v)),
            Err(_) => self.second.spec_parse(s, i),
        }
    }

    proof fn lemma_parse_bounds(&self, s: Seq<char>, i: int) {
        self.first.lemma_parse_bounds(s, i);
        self.second.lemma_parse_bounds(s, i);
    }

    fn parse(&self, input: &str, pos: usize) -> (r: Result<(usize, P1::Output), usize>) {
        match self.first.parse(input, pos) {
            Ok((j, out)) => Ok((j, out)),
            Err(_) => self.second.parse(input, pos),
        }
    }
}

/// Failed alternation consumes no input: whenever the first parser
/// fails, the alternation behaves exactly as the second parser run on
/// the original position, so the second alternative never sees a
/// partially consumed input.
pub proof fn lemma_either_retries_from_original<P1: Parser, P2: Parser<Model = P1::Model, Output = P1::Output>>(
    alt: &Either<P1, P2>,
    s: Seq<char>,
    i: int,
)
    requires
        alt.first.spec_parse(s, i) is Err,
    ensures
        alt.spec_parse(s, i) == alt.second.spec_parse(s, i),
{
}

/// Repeated application of a parser, collecting the outputs in order:
/// the position after the repetition and the outputs gathered.
/// Repetition stops at the first failure, and also at an inner success
/// that consumes nothing (which greedy repetition could never leave).
pub open spec fn spec_repeat<P: Parser>(p: &P, s: Seq<char>, i: int) -> (int, Seq<P::Model>)
    decreases s.len() - i,
{
    if 0 <= i <= s.len() {
        match p.spec_parse(s, i) {
            Ok((j, v)) => if i < j <= s.len() {
                let rest = spec_repeat(p, s, j);
                (rest.0, seq![v] + rest.1)
            } else {
                (i, Seq::empty())
            },
            Err(_) => (i, Seq::empty()),
        }
    } else {
        (i, Seq::empty())
    }
}

/// The repetition also never consumes more than the input holds.
pub proof fn lemma_repeat_bounds<P: Parser>(p: &P, s: Seq<char>, i: int)
    requires
        0 <= i <= s.len(),
    ensures
        i <= spec_repeat(p, s, i).0 <= s.len(),
    decreases s.len() - i,
{
    p.lemma_parse_bounds(s, i);
    match p.spec_parse(s, i) {
        Ok((j, v)) => {
            if i < j <= s.len() {
                lemma_repeat_bounds(p, s, j);
            }
        },
        Err(_) => {},
    }
}

/// Parses zero or one match of the provided parser; never fails.
#[derive(Clone, Copy)]
pub struct ZeroOrOne<P> {
    pub parser: P,
}

/// Parses zero or one match of the provided parser.
pub fn zero_or_one<P: Parser>(parser: P) -> (r: ZeroOrOne<P>)
    ensures
        r == (ZeroOrOne { parser }),
{
    ZeroOrOne { parser }
}

impl<P: Parser> Parser for ZeroOrOne<P> {
    type Model = Seq<P::Model>;

    type Output = Vec<P::Output>;

    open spec fn spec_parse(&self, s: Seq<char>, i: int) -> Result<(int, Seq<P::Model>), int> {
        match self.parser.spec_parse(s, i) {
            Ok((j, v)) => Ok((j, seq![v])),
            Err(_) => Ok((i, Seq::empty())),
        }
    }

    proof fn lemma_parse_bounds(&self, s: Seq<char>, i: int) {
        self.parser.lemma_parse_bounds(s, i);
    }

    fn parse(&self, input: &str, pos: usize) -> (r: Result<(usize, Vec<P::Output>), usize>) {
        let mut items: Vec<P::Output> = Vec::new();
        match self.parser.parse(input, pos) {
            Ok((j, out)) => {
                items.push(out);
                proof {
                    assert(items.deep_view() =~= seq![out.deep_view()]);
                }
                Ok((j, items))
            },
            Err(_) => {
                proof {
                    assert(items.deep_view() =~= Seq::<P::Model>::empty());
                }
                Ok((pos, items))
            },
        }
    }
}

/// Parses zero or more matches of the provided parser; never fails.
#[derive(Clone, Copy)]
pub struct ZeroOrMore<P> {
    pub parser: P,
}

/// Parses zero or more matches of the provided parser.
pub fn zero_or_more<P: Parser>(parser: P) -> (r: ZeroOrMore<P>)
    ensures
        r == (ZeroOrMore { parser }),
{
    ZeroOrMore { parser }
}

impl<P: Parser> Parser for ZeroOrMore<P> {
    type Model = Seq<P::Model>;

    type Output = Vec<P::Output>;

    open spec fn spec_parse(&self, s: Seq<char>, i: int) -> Result<(int, Seq<P::Model>), int> {
        Ok(spec_repeat(&self.parser, s, i))
    }

    proof fn lemma_parse_bounds(&self, s: Seq<char>, i: int) {
        lemma_repeat_bounds(&self.parser, s, i);
    }

    fn parse(&self, input: &str, pos: usize) -> (r: Result<(usize, Vec<P::Output>), usize>) {
        let mut items: Vec<P::Output> = Vec::new();
        let mut cur: usize = pos;
        proof {
            assert(items.deep_view() =~= Seq::<P::Model>::empty());
        }
        loop
            invariant
                pos <= cur <= input@.len(),
                input@.len() <= usize::MAX,
                spec_repeat(&self.parser, input@, pos as int).0 == spec_repeat(
                    &self.parser,
                    input@,
                    cur as int,
                ).0,
                spec_repeat(&self.parser, input@, pos as int).1 == items.deep_view()
                    + spec_repeat(&self.parser, input@, cur as int).1,
            decreases input@.len() - cur,
        {
            proof {
                self.parser.lemma_parse_bounds(input@, cur as int);
            }
            match self.parser.parse(input, cur) {
                Ok((j, out)) => {
                    if j <= cur {
                        proof {
                            assert(spec_repeat(&self.parser, input@, cur as int) == (
                                cur as int,
                                Seq::<P::Model>::empty(),
                            ));
                            assert(items.deep_view() + Seq::<P::Model>::empty()
                                =~= items.deep_view());
                        }
                        return Ok((cur, items));
                    }
                    let ghost prev = cur as int;
                    let ghost prev_items = items.deep_view();
                    items.push(out);
                    cur = j;
                    proof {
                        let rest = spec_repeat(&self.parser, input@, cur as int);
                        assert(spec_repeat(&self.parser, input@, prev) == (
                            rest.0,
                            seq![out.deep_view()] + rest.1,
                        ));
                        assert(items.deep_view() =~= prev_items + seq![out.deep_view()]);
                        assert(prev_items + (seq![out.deep_view()] + rest.1) =~= (prev_items
                            + seq![out.deep_view()]) + rest.1);
                    }
                },
                Err(_) => {
                    proof {
                        assert(spec_repeat(&self.parser, input@, cur as int) == (
                            cur as int,
                            Seq::<P::Model>::empty(),
                        ));
                        assert(items.deep_view() + Seq::<P::Model>::empty() =~= items.deep_view());
                    }
                    return Ok((cur, items));
                },
            }
        }
    }
}

/// Parses one or more matches of the provided parser; fails where the
/// first application fails.
#[derive(Clone, Copy)]
pub struct OneOrMore<P> {
    pub parser: P,
}

/// Parses where there is at least one match for the provided parser.
pub fn one_or_more<P: Parser>(parser: P) -> (r: OneOrMore<P>)
    ensures
        r == (OneOrMore { parser }),
{
    OneOrMore { parser }
}

impl<P: Parser> Parser for OneOrMore<P> {
    type Model = Seq<P::Model>;

    type Output = Vec<P::Output>;

    open spec fn spec_parse(&self, s: Seq<char>, i: int) -> Result<(int, Seq<P::Model>), int> {
        match self.parser.spec_parse(s, i) {
            Ok((j, v)) => if i < j <= s.len() {
                let rest = spec_repeat(&self.parser, s, j);
                Ok((rest.0, seq![v] + rest.1))
            } else {
                Ok((j, seq![v]))
            },
            Err(_) => Err(i),
        }
    }

    proof fn lemma_parse_bounds(&self, s: Seq<char>, i: int) {
        self.parser.lemma_parse_bounds(s, i);
        if let Ok((j, _)) = self.parser.spec_parse(s, i) {
            if i < j <= s.len() {
                lemma_repeat_bounds(&self.parser, s, j);
            }
        }
    }

    fn parse(&self, input: &str, pos: usize) -> (r: Result<(usize, Vec<P::Output>), usize>) {
        proof {
            self.parser.lemma_parse_bounds(input@, pos as int);
        }
        match self.parser.parse(input, pos) {
            Ok((first_end, first_out)) => {
                let ghost first_model = first_out.deep_view();
                let mut items: Vec<P::Output> = Vec::new();
                items.push(first_out);
                proof {
                    assert(items.deep_view() =~= seq![first_model]);
                }
                if first_end <= pos {
                    return Ok((first_end, items));
                }
                let mut cur: usize = first_end;
                loop
                    invariant
                        pos < first_end <= cur <= input@.len(),
                        input@.len() <= usize::MAX,
                        self.parser.spec_parse(input@, pos as int) == Ok::<(int, P::Model), int>(
                            (first_end as int, first_model),
                        ),
                        spec_repeat(&self.parser, input@, first_end as int).0 == spec_repeat(
                            &self.parser,
                            input@,
                            cur as int,
                        ).0,
                        seq![first_model] + spec_repeat(&self.parser, input@, first_end as int).1
                            == items.deep_view() + spec_repeat(&self.parser, input@, cur as int).1,
                    decreases input@.len() - cur,
                {
                    proof {
                        self.parser.lemma_parse_bounds(input@, cur as int);
                    }
                    match self.parser.parse(input, cur) {
                        Ok((j, out)) => {
                            if j <= cur {
                                proof {
                                    assert(spec_repeat(&self.parser, input@, cur as int) == (
                                        cur as int,
                                        Seq::<P::Model>::empty(),
                                    ));
                                    assert(items.deep_view() + Seq::<P::Model>::empty()
                                        =~= items.deep_view());
                                }
                                return Ok((cur, items));
                            }
                            let ghost prev = cur as int;
                            let ghost prev_items = items.deep_view();
                            items.push(out);
                            cur = j;
                            proof {
                                let rest = spec_repeat(&self.parser, input@, cur as int);
                                assert(spec_repeat(&self.parser, input@, prev) == (
                                    rest.0,
                                    seq![out.deep_view()] + rest.1,
                                ));
                                assert(items.deep_view() =~= prev_items + seq![out.deep_view()]);
                                assert(prev_items + (seq![out.deep_view()] + rest.1)
                                    =~= (prev_items + seq![out.deep_view()]) + rest.1);
                            }
                        },
                        Err(_) => {
                            proof {
                                assert(spec_repeat(&self.parser, input@, cur as int) == (
                                    cur as int,
                                    Seq::<P::Model>::empty(),
                                ));
                                assert(items.deep_view() + Seq::<P::Model>::empty()
                                    =~= items.deep_view());
                            }
                            return Ok((cur, items));
                        },
                    }
                }
            },
            Err(_) => Err(pos),
        }
    }
}

/// Runs the provided parser and succeeds only where the predicate
/// holds of the output; fails at the original position otherwise, so
/// a rejected match consumes no input.
#[derive(Clone, Copy)]
pub struct PredFilter<P, F> {
    pub parser: P,
    pub filter: F,
}

/// Runs the provided parser and returns success only where the
/// predicate accepts the output.
pub fn pred<P: Parser, F: PredFn<In = P::Output, InModel = P::Model>>(parser: P, filter: F) -> (r:
    PredFilter<P, F>)
    ensures
        r == (PredFilter { parser, filter }),
{
    PredFilter { parser, filter }
}

impl<P: Parser, F: PredFn<In = P::Output, InModel = P::Model>> Parser for PredFilter<P, F> {
    type Model = P::Model;

    type Output = P::Output;

    open spec fn spec_parse(&self, s: Seq<char>, i: int) -> Result<(int, P::Model), int> {
        match self.parser.spec_parse(s, i) {
            Ok((j, v)) => if self.filter.spec_test(v) {
                Ok((j, v))
            } else {
                Err(i)
            },
            Err(_) => Err(i),
        }
    }

    proof fn lemma_parse_bounds(&self, s: Seq<char>, i: int) {
        self.parser.lemma_parse_bounds(s, i);
    }

    fn parse(&self, input: &str, pos: usize) -> (r: Result<(usize, P::Output), usize>) {
        match self.parser.parse(input, pos) {
            Ok((j, out)) => {
                if self.filter.test(&out) {
                    Ok((j, out))
                } else {
                    Err(pos)
                }
            },
            Err(_) => Err(pos),
        }
    }
}

} // verus!

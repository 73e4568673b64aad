//! Scene field values: vectors written as one number or as a list of
//! numbers, visibility flags and scalar amounts, each with its normal form.
use crate::num::{q_int, Dec, Q};
use crate::text::{
    chars_of, dec_of, is_ws, lemma_literal_is_word, lemma_words_append_word, lemma_words_ws, parse_dec,
    split_words, words,
};
use vstd::prelude::*;

verus! {

/// A vector field: one number for every component, or the components as
/// whitespace-separated decimal literals.
#[derive(Clone, Debug)]
pub enum Vectors {
    Scaler(Dec),
    Vectors(String),
}

/// The views of a sequence of numbers.
pub open spec fn views(v: Seq<Dec>) -> Seq<Q> {
    v.map_values(|d: Dec| d@)
}

/// The values of a sequence of literals, or `None` if one is no literal a
/// `Dec` can hold.
pub open spec fn literal_values(ws: Seq<Seq<char>>) -> Option<Seq<Q>>
    decreases ws.len(),
{
    if ws.len() == 0 {
        Some(seq![])
    } else {
        match (literal_values(ws.drop_last()), dec_of(ws.last())) {
            (Some(a), Some(q)) => Some(a.push(q)),
            _ => None,
        }
    }
}

/// The components a text of whitespace-separated literals stands for.
pub open spec fn text_values(s: Seq<char>) -> Option<Seq<Q>> {
    literal_values(words(s))
}

/// The components a vector field stands for: a single number stands for
/// three equal components.
pub open spec fn vectors_values(v: Vectors) -> Option<Seq<Q>> {
    match v {
        Vectors::Scaler(d) => Some(seq![d@, d@, d@]),
        Vectors::Vectors(s) => text_values(s@),
    }
}

impl Vectors {
    /// The components of the vector, or `None` where a word of the text is
    /// no decimal literal.
    pub fn parse(&self) -> (r: Option<Vec<Dec>>)
        ensures
            r is Some <==> vectors_values(*self) is Some,
            r matches Some(v) ==> Some(views(v@)) == vectors_values(*self),
    {
        match self {
            Vectors::Scaler(d) => {
                let r = vec![*d, *d, *d];
                assert(views(r@) =~= seq![d@, d@, d@]);
                Some(r)
            },
            Vectors::Vectors(s) => {
                let cs = chars_of(s.as_str());
                let ws = split_words(&cs);
                let ghost wv = words(cs@);
                let mut out: Vec<Dec> = Vec::new();
                let mut i: usize = 0;
                while i < ws.len()
                    invariant
                        i <= ws@.len() == wv.len(),
                        wv == words(s@),
                        vectors_values(*self) == text_values(s@),
                        forall|k: int| 0 <= k < ws@.len() ==> (#[trigger] ws@[k])@ == wv[k],
                        literal_values(wv.take(i as int)) == Some(views(out@)),
                    decreases ws.len() - i,
                {
                    let d = parse_dec(&ws[i]);
                    assert(wv.take(i as int + 1).drop_last() =~= wv.take(i as int));
                    assert(wv.take(i as int + 1).last() == ws@[i as int]@);
                    match d {
                        None => {
                            proof {
                                assert(dec_of(wv[i as int]) is None);
                                assert(literal_values(wv.take(i as int + 1)) is None);
                                lemma_literal_values_none(wv, i as int + 1);

                            }
                            return None;
                        },
                        Some(d) => {
                            let ghost before = views(out@);
                            out.push(d);
                            assert(views(out@) =~= before.push(d@));
                        },
                    }
                    i = i + 1;
                }
                assert(wv.take(wv.len() as int) =~= wv);
                Some(out)
            },
        }
    }
}

/// Once a prefix of the words holds a non-literal, so does every longer one.
proof fn lemma_literal_values_none(ws: Seq<Seq<char>>, n: int)
    requires
        0 < n <= ws.len(),
        literal_values(ws.take(n)) is None,
    ensures
        literal_values(ws) is None,
    decreases ws.len() - n,
{
    if n < ws.len() {
        assert(ws.take(n + 1).drop_last() =~= ws.take(n));
        lemma_literal_values_none(ws, n + 1);
    } else {
        assert(ws.take(n) =~= ws);
    }
}

/// A vector written as one number stands for that number in every one of
/// its three components.
pub proof fn lemma_scalar_broadcast(d: Dec)
    ensures
        vectors_values(Vectors::Scaler(d)) == Some(seq![d@, d@, d@]),
{
}

/// A vector written as three literals separated by a space stands for
/// their three values, in order.
pub proof fn lemma_three_literals(a: Seq<char>, b: Seq<char>, c: Seq<char>)
    requires
        dec_of(a) is Some,
        dec_of(b) is Some,
        dec_of(c) is Some,
    ensures
        text_values(a + seq![' '] + b + seq![' '] + c) == Some(
            seq![dec_of(a).unwrap(), dec_of(b).unwrap(), dec_of(c).unwrap()],
        ),
{
    lemma_literal_is_word(a);
    lemma_literal_is_word(b);
    lemma_literal_is_word(c);
    let sp = seq![' '];
    let e = Seq::<char>::empty();
    assert(e + a =~= a);
    lemma_words_append_word(e, a);
    assert(words(e) =~= seq![]);
    assert(is_ws(' '));
    lemma_words_ws(a, ' ');
    assert(a.push(' ') =~= a + sp);
    lemma_words_append_word(a + sp, b);
    lemma_words_ws(a + sp + b, ' ');
    assert((a + sp + b).push(' ') =~= a + sp + b + sp);
    lemma_words_append_word(a + sp + b + sp, c);
    let ws = words(a + sp + b + sp + c);
    assert(ws =~= seq![a, b, c]);
    assert(ws.drop_last() =~= seq![a, b]);
    assert(ws.drop_last().drop_last() =~= seq![a]);
    assert(ws.drop_last().drop_last().drop_last() =~= Seq::<Seq<char>>::empty());
    assert(literal_values(seq![a]) == Some(seq![dec_of(a).unwrap()])) by {
        assert(seq![a].drop_last() =~= Seq::<Seq<char>>::empty());
        assert(seq![a].last() == a);
        assert(literal_values(Seq::<Seq<char>>::empty()) == Some(Seq::<Q>::empty()));
        assert(Seq::<Q>::empty().push(dec_of(a).unwrap()) =~= seq![dec_of(a).unwrap()]);
    }
    assert(literal_values(seq![a, b]) == Some(seq![dec_of(a).unwrap(), dec_of(b).unwrap()])) by {
        assert(seq![a, b].drop_last() =~= seq![a]);
        assert(seq![a, b].last() == b);
        assert(seq![dec_of(a).unwrap()].push(dec_of(b).unwrap()) =~= seq![
            dec_of(a).unwrap(),
            dec_of(b).unwrap(),
        ]);
    }
    assert(seq![a, b, c].drop_last() =~= seq![a, b]);
    assert(seq![a, b, c].last() == c);
    assert(seq![dec_of(a).unwrap(), dec_of(b).unwrap()].push(dec_of(c).unwrap()) =~= seq![
        dec_of(a).unwrap(),
        dec_of(b).unwrap(),
        dec_of(c).unwrap(),
    ]);
}

/// Three exact numbers.
pub struct Q3 {
    pub x: Q,
    pub y: Q,
    pub z: Q,
}

/// A vector of three numbers.
#[derive(Clone, Copy, Debug)]
pub struct Vec3 {
    pub x: Dec,
    pub y: Dec,
    pub z: Dec,
}

impl View for Vec3 {
    type V = Q3;

    open spec fn view(&self) -> Q3 {
        Q3 { x: self.x@, y: self.y@, z: self.z@ }
    }
}

/// A vector of two numbers.
#[derive(Clone, Copy, Debug)]
pub struct Vec2 {
    pub x: Dec,
    pub y: Dec,
}

pub open spec fn q3_splat(n: int) -> Q3 {
    Q3 { x: q_int(n), y: q_int(n), z: q_int(n) }
}

/// The three components an optional vector field stands for: the first three
/// of its values, or `dflt` where the field is absent, is no vector or has
/// fewer than three components.
pub open spec fn field_vec3(f: Option<Vectors>, dflt: Q3) -> Q3 {
    match f {
        Some(v) => match vectors_values(v) {
            Some(qs) => if qs.len() >= 3 {
                Q3 { x: qs[0], y: qs[1], z: qs[2] }
            } else {
                dflt
            },
            None => dflt,
        },
        None => dflt,
    }
}

/// The two components an optional vector field stands for, as `field_vec3`
/// with two.
pub open spec fn field_vec2(f: Option<Vectors>, dflt: (Q, Q)) -> (Q, Q) {
    match f {
        Some(v) => match vectors_values(v) {
            Some(qs) => if qs.len() >= 2 {
                (qs[0], qs[1])
            } else {
                dflt
            },
            None => dflt,
        },
        None => dflt,
    }
}

pub fn vec3_splat(n: i32) -> (r: Vec3)
    ensures
        r@ == q3_splat(n as int),
{
    Vec3 { x: Dec::from_int(n), y: Dec::from_int(n), z: Dec::from_int(n) }
}

/// The normal form of an optional three-component vector field.
pub fn field_or3(f: &Option<Vectors>, dflt: Vec3) -> (r: Vec3)
    ensures
        r@ == field_vec3(*f, dflt@),
{
    match f {
        Some(v) => match v.parse() {
            Some(qs) => {
                if qs.len() >= 3 {
                    assert(views(qs@)[0] == qs@[0]@);
                    assert(views(qs@)[1] == qs@[1]@);
                    assert(views(qs@)[2] == qs@[2]@);
                    Vec3 { x: qs[0], y: qs[1], z: qs[2] }
                } else {
                    dflt
                }
            },
            None => dflt,
        },
        None => dflt,
    }
}

/// The normal form of an optional two-component vector field.
pub fn field_or2(f: &Option<Vectors>, dflt: Vec2) -> (r: Vec2)
    ensures
        (r.x@, r.y@) == field_vec2(*f, (dflt.x@, dflt.y@)),
{
    match f {
        Some(v) => match v.parse() {
            Some(qs) => {
                if qs.len() >= 2 {
                    assert(views(qs@)[0] == qs@[0]@);
                    assert(views(qs@)[1] == qs@[1]@);
                    Vec2 { x: qs[0], y: qs[1] }
                } else {
                    dflt
                }
            },
            None => dflt,
        },
        None => dflt,
    }
}

/// Component `i` of `qs`, or zero where it has fewer components.
pub open spec fn comp_or_zero(qs: Seq<Q>, i: int) -> Q {
    if i < qs.len() {
        qs[i]
    } else {
        q_int(0)
    }
}

/// The three components an optional vector field stands for, each missing
/// component zero; an absent or malformed field is all zero.
pub open spec fn field_vec3_zero(f: Option<Vectors>) -> Q3 {
    match f {
        Some(v) => match vectors_values(v) {
            Some(qs) => Q3 { x: comp_or_zero(qs, 0), y: comp_or_zero(qs, 1), z: comp_or_zero(qs, 2) },
            None => q3_splat(0),
        },
        None => q3_splat(0),
    }
}

fn comp_or_zero_exec(qs: &Vec<Dec>, i: usize) -> (r: Dec)
    ensures
        r@ == comp_or_zero(views(qs@), i as int),
{
    if i < qs.len() {
        qs[i]
    } else {
        Dec::zero()
    }
}

/// The normal form of an optional vector field whose missing components
/// are zero (see `field_vec3_zero`).
pub fn field_or_zero3(f: &Option<Vectors>) -> (r: Vec3)
    ensures
        r@ == field_vec3_zero(*f),
{
    match f {
        Some(v) => match v.parse() {
            Some(qs) => Vec3 {
                x: comp_or_zero_exec(&qs, 0),
                y: comp_or_zero_exec(&qs, 1),
                z: comp_or_zero_exec(&qs, 2),
            },
            None => vec3_splat(0),
        },
        None => vec3_splat(0),
    }
}

/// A visibility field: a plain flag, or a flag wrapped as `{value: flag}`
/// so that a script may drive it.
#[derive(Clone, Copy, Debug, PartialEq, Eq, Structural)]
pub enum Visibility {
    Unset,
    Flag(bool),
    Value(bool),
}

pub open spec fn visible_spec(v: Visibility) -> bool {
    match v {
        Visibility::Unset => true,
        Visibility::Flag(b) => b,
        Visibility::Value(b) => b,
    }
}

impl Visibility {
    /// Whether the field says "visible"; an unset field does.
    pub fn resolve(&self) -> (r: bool)
        ensures
            r == visible_spec(*self),
    {
        match self {
            Visibility::Unset => true,
            Visibility::Flag(b) => *b,
            Visibility::Value(b) => *b,
        }
    }
}

/// A scalar field (opacity, volume): a plain number, or a number wrapped as
/// `{value: number}`.
#[derive(Clone, Copy, Debug)]
pub enum Amount {
    Unset,
    Number(Dec),
    Value(Dec),
}

pub open spec fn amount_spec(a: Amount, dflt: Q) -> Q {
    match a {
        Amount::Unset => dflt,
        Amount::Number(d) => d@,
        Amount::Value(d) => d@,
    }
}

impl Amount {
    /// The number the field holds, or `dflt` where it is unset.
    pub fn resolve(&self, dflt: Dec) -> (r: Dec)
        ensures
            r@ == amount_spec(*self, dflt@),
    {
        match self {
            Amount::Unset => dflt,
            Amount::Number(d) => *d,
            Amount::Value(d) => *d,
        }
    }
}

} // verus!

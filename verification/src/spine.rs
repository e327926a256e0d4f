//! The tensor spine: an exact direction together with a point of the
//! hexagonal (A₂) lattice.
use crate::bignum::{decimal_text, is_digit_char, lemma_decimal_text_chars, lemma_decimal_text_injective, BigNum};
use crate::database::{
    all_directions, direction_at, is_direction_database, lemma_database_nonempty, pythagorean48_count,
    database_direction_set, views,
};
use crate::direction::{compose_triples, identity_triple, Direction48};
use vstd::prelude::*;
use vstd::string::StringExecFns;

verus! {

/// A point of the hexagonal lattice in Eisenstein coordinates `(a, b)`.
#[derive(Debug, Clone, Copy, PartialEq, Eq, Hash, Structural)]
pub struct HexPoint {
    pub a: i64,
    pub b: i64,
}

impl HexPoint {
    pub fn new(a: i64, b: i64) -> (r: Self)
        ensures
            r == (HexPoint { a, b }),
    {
        HexPoint { a, b }
    }

    /// The lattice origin `(0, 0)`.
    pub fn origin() -> (r: Self)
        ensures
            r == (HexPoint { a: 0, b: 0 }),
    {
        HexPoint { a: 0, b: 0 }
    }
}

/// A combined spatial state: an exact direction and a hexagonal lattice position.
#[derive(Debug, Clone)]
pub struct TensorSpine {
    /// Exact direction (zero-drift unit vector)
    pub direction: Direction48,
    /// Position on the hexagonal (A₂) lattice
    pub position: HexPoint,
}

/// The text of `state_hash` for a direction `(a, b, c)` at lattice point `(pa, pb)`.
pub open spec fn state_hash_text(d: (int, int, int), pa: int, pb: int) -> Seq<char> {
    "TS(d="@ + decimal_text(d.0) + "/"@ + decimal_text(d.1) + "@"@ + decimal_text(d.2) + "|p=("@
        + decimal_text(pa) + ","@ + decimal_text(pb) + "))"@
}

/// Two texts that agree after a common prefix agree in what follows it.
proof fn lemma_drop_common_prefix(p: Seq<char>, r1: Seq<char>, r2: Seq<char>)
    requires
        p + r1 == p + r2,
    ensures
        r1 == r2,
{
    assert(r1 =~= (p + r1).subrange(p.len() as int, (p + r1).len() as int));
    assert(r2 =~= (p + r2).subrange(p.len() as int, (p + r2).len() as int));
}

/// A text, then the separator `c`, then the rest.
spec fn cut(s: Seq<char>, c: char, r: Seq<char>) -> Seq<char> {
    s + (seq![c] + r)
}

/// Cutting at the first `c`: when `s1` and `s2` hold no `c`, equal texts
/// `s1 c r1` and `s2 c r2` have `s1 == s2` and `r1 == r2`.
proof fn lemma_split_at_separator(s1: Seq<char>, r1: Seq<char>, s2: Seq<char>, r2: Seq<char>, c: char)
    requires
        forall|i: int| 0 <= i < s1.len() ==> s1[i] != c,
        forall|i: int| 0 <= i < s2.len() ==> s2[i] != c,
        cut(s1, c, r1) == cut(s2, c, r2),
    ensures
        s1 == s2,
        r1 == r2,
{
    let l1 = cut(s1, c, r1);
    let l2 = cut(s2, c, r2);
    if s1.len() < s2.len() {
        assert(l1[s1.len() as int] == c);
        assert(l2[s1.len() as int] == s2[s1.len() as int]);
    } else if s2.len() < s1.len() {
        assert(l2[s2.len() as int] == c);
        assert(l1[s2.len() as int] == s1[s2.len() as int]);
    } else {
        assert(s1 =~= l1.subrange(0, s1.len() as int));
        assert(s2 =~= l2.subrange(0, s2.len() as int));
        assert(r1 =~= l1.subrange(s1.len() as int + 1, l1.len() as int));
        assert(r2 =~= l2.subrange(s2.len() as int + 1, l2.len() as int));
    }
}

/// No separator of the state text occurs inside a decimal text.
proof fn lemma_no_separator(x: int)
    ensures
        forall|i: int| 0 <= i < decimal_text(x).len() ==> {
            let ch = #[trigger] decimal_text(x)[i];
            ch != '/' && ch != '@' && ch != '|' && ch != ',' && ch != ')'
        },
{
    lemma_decimal_text_chars(x);
}

/// The state text after its head `TS(d=`, as cuts at its separators.
spec fn state_hash_body(d: (int, int, int), pa: int, pb: int) -> Seq<char> {
    let q = cut(decimal_text(pb), ')', seq![')']);
    let p = cut(decimal_text(pa), ',', q);
    let c = cut(decimal_text(d.2), '|', seq!['p', '=', '('] + p);
    let b = cut(decimal_text(d.1), '@', c);
    cut(decimal_text(d.0), '/', b)
}

/// Concatenation is associative.
proof fn lemma_concat_assoc(x: Seq<char>, y: Seq<char>, z: Seq<char>)
    ensures
        (x + y) + z == x + (y + z),
{
    assert((x + y) + z =~= x + (y + z));
}

/// The state text spelled out piece by piece.
#[verifier::rlimit(30)]
proof fn lemma_state_hash_pieces(d: (int, int, int), pa: int, pb: int)
    ensures
        state_hash_text(d, pa, pb) == seq!['T', 'S', '(', 'd', '='] + state_hash_body(d, pa, pb),
{
    reveal_strlit("TS(d=");
    reveal_strlit("/");
    reveal_strlit("@");
    reveal_strlit("|p=(");
    reveal_strlit(",");
    reveal_strlit("))");
    let h = seq!['T', 'S', '(', 'd', '='];
    let mid = seq!['p', '=', '('];
    let end = seq![')'];
    assert("TS(d="@ =~= h);
    assert("/"@ =~= seq!['/']);
    assert("@"@ =~= seq!['@']);
    assert("|p=("@ =~= seq!['|'] + mid);
    assert(","@ =~= seq![',']);
    assert("))"@ =~= seq![')'] + end);
    let ta = decimal_text(d.0);
    let tb = decimal_text(d.1);
    let tc = decimal_text(d.2);
    let tp = decimal_text(pa);
    let tq = decimal_text(pb);
    let q = cut(tq, ')', end);
    let p = cut(tp, ',', q);
    let c = cut(tc, '|', mid + p);
    let b = cut(tb, '@', c);
    let a = cut(ta, '/', b);
    let x2 = h + ta;
    let x3 = x2 + seq!['/'];
    let x4 = x3 + tb;
    let x5 = x4 + seq!['@'];
    let x6 = x5 + tc;
    let x7 = x6 + (seq!['|'] + mid);
    let x8 = x7 + tp;
    let x9 = x8 + seq![','];
    let x10 = x9 + tq;
    assert(state_hash_text(d, pa, pb) == x10 + (seq![')'] + end));
    lemma_concat_assoc(x9, tq, seq![')'] + end);
    lemma_concat_assoc(x8, seq![','], q);
    lemma_concat_assoc(x7, tp, seq![','] + q);
    lemma_concat_assoc(seq!['|'], mid, p);
    lemma_concat_assoc(x6, seq!['|'] + mid, p);
    lemma_concat_assoc(x5, tc, seq!['|'] + (mid + p));
    lemma_concat_assoc(x4, seq!['@'], c);
    lemma_concat_assoc(x3, tb, seq!['@'] + c);
    lemma_concat_assoc(x2, seq!['/'], b);
    lemma_concat_assoc(h, ta, seq!['/'] + b);
}

/// The state text identifies the state: two states have the same text
/// exactly when their directions `(a, b, c)` and lattice points `(pa, pb)`
/// agree, signs included.  So spines facing `(3, 4, 5)` and `(3, −4, 5)`
/// never share a text.
pub proof fn lemma_state_hash_identifies_state(
    d1: (int, int, int),
    pa1: int,
    pb1: int,
    d2: (int, int, int),
    pa2: int,
    pb2: int,
)
    ensures
        state_hash_text(d1, pa1, pb1) == state_hash_text(d2, pa2, pb2) <==> (d1 == d2 && pa1 == pa2
            && pb1 == pb2),
{
    if state_hash_text(d1, pa1, pb1) == state_hash_text(d2, pa2, pb2) {
        lemma_state_hash_pieces(d1, pa1, pb1);
        lemma_state_hash_pieces(d2, pa2, pb2);
        lemma_no_separator(d1.0);
        lemma_no_separator(d1.1);
        lemma_no_separator(d1.2);
        lemma_no_separator(pa1);
        lemma_no_separator(pb1);
        lemma_no_separator(d2.0);
        lemma_no_separator(d2.1);
        lemma_no_separator(d2.2);
        lemma_no_separator(pa2);
        lemma_no_separator(pb2);
        let head = seq!['T', 'S', '(', 'd', '='];
        let mid = seq!['p', '=', '('];
        let end = seq![')'];
        let q1 = cut(decimal_text(pb1), ')', end);
        let q2 = cut(decimal_text(pb2), ')', end);
        let p1 = cut(decimal_text(pa1), ',', q1);
        let p2 = cut(decimal_text(pa2), ',', q2);
        let c1 = cut(decimal_text(d1.2), '|', mid + p1);
        let c2 = cut(decimal_text(d2.2), '|', mid + p2);
        let b1 = cut(decimal_text(d1.1), '@', c1);
        let b2 = cut(decimal_text(d2.1), '@', c2);
        lemma_drop_common_prefix(head, state_hash_body(d1, pa1, pb1), state_hash_body(d2, pa2, pb2));
        lemma_split_at_separator(decimal_text(d1.0), b1, decimal_text(d2.0), b2, '/');
        lemma_split_at_separator(decimal_text(d1.1), c1, decimal_text(d2.1), c2, '@');
        lemma_split_at_separator(decimal_text(d1.2), mid + p1, decimal_text(d2.2), mid + p2, '|');
        lemma_drop_common_prefix(mid, p1, p2);
        lemma_split_at_separator(decimal_text(pa1), q1, decimal_text(pa2), q2, ',');
        lemma_split_at_separator(decimal_text(pb1), end, decimal_text(pb2), end, ')');
        lemma_decimal_text_injective(d1.0, d2.0);
        lemma_decimal_text_injective(d1.1, d2.1);
        lemma_decimal_text_injective(d1.2, d2.2);
        lemma_decimal_text_injective(pa1, pa2);
        lemma_decimal_text_injective(pb1, pb2);
    }
}

impl TensorSpine {
    /// A spine with the given direction and position.
    pub fn new(direction: Direction48, position: HexPoint) -> (r: Self)
        ensures
            r.direction@ == direction@,
            r.position == position,
    {
        TensorSpine { direction, position }
    }

    /// A spine at the origin, facing the identity direction.
    pub fn origin() -> (r: Self)
        ensures
            r.direction@ == identity_triple(),
            r.position == (HexPoint { a: 0, b: 0 }),
    {
        TensorSpine { direction: Direction48::identity(), position: HexPoint::origin() }
    }

    /// The spine with its direction composed with `other`, at the same position.
    pub fn compose_rotation(&self, other: &Direction48) -> (r: Self)
        ensures
            r.direction@ == compose_triples(self.direction@, other@),
            r.position == self.position,
    {
        TensorSpine { direction: self.direction.compose(other), position: self.position }
    }

    /// Rotate the spine by the direction at `index` (modulo the count) of
    /// the direction database.
    pub fn rotate(&self, index: u32) -> (r: Self)
        ensures
            r.position == self.position,
            exists|dirs: Seq<(int, int, int)>|
                is_direction_database(dirs) && r.direction@ == compose_triples(
                    self.direction@,
                    #[trigger] dirs[(index as int) % (dirs.len() as int)],
                ),
    {
        let dirs = all_directions();
        proof {
            lemma_database_nonempty(views(dirs@));
        }
        self.rotate_with(&dirs, index)
    }

    /// Rotate the spine by the direction at `index` (modulo the count) of an
    /// already built list of directions, such as the database.
    pub fn rotate_with(&self, directions: &Vec<Direction48>, index: u32) -> (r: Self)
        requires
            directions@.len() > 0,
        ensures
            r.position == self.position,
            r.direction@ == compose_triples(
                self.direction@,
                views(directions@)[(index as int) % (directions@.len() as int)],
            ),
    {
        let dir = direction_at(directions, index as usize);
        self.compose_rotation(dir)
    }

    /// The spine moved to the lattice point `(a, b)`, with the same direction.
    pub fn set_position(&self, a: i64, b: i64) -> (r: Self)
        ensures
            r.direction@ == self.direction@,
            r.position == (HexPoint { a, b }),
    {
        TensorSpine { direction: self.direction.duplicate(), position: HexPoint::new(a, b) }
    }

    /// A deterministic text that identifies the state:
    /// `TS(d=a/b@c|p=(pa,pb))`.
    pub fn state_hash(&self) -> (r: String)
        ensures
            r@ == state_hash_text(self.direction@, self.position.a as int, self.position.b as int),
    {
        let mut s = String::new();
        s.append("TS(d=");
        s.append(self.direction.a.to_decimal().as_str());
        s.append("/");
        s.append(self.direction.b.to_decimal().as_str());
        s.append("@");
        s.append(self.direction.c.to_decimal().as_str());
        s.append("|p=(");
        s.append(BigNum::from_i64(self.position.a).to_decimal().as_str());
        s.append(",");
        s.append(BigNum::from_i64(self.position.b).to_decimal().as_str());
        s.append("))");
        assert(s@ =~= state_hash_text(self.direction@, self.position.a as int, self.position.b as int));
        s
    }

    /// Number of distinct Pythagorean48 directions available.
    pub fn num_directions() -> (r: usize)
        ensures
            r == database_direction_set().len(),
    {
        pythagorean48_count()
    }
}

} // verus!

//! Positions in a chart by track and fraction.

use crate::ordered::OrderKey;
use vstd::prelude::*;

verus! {

/// A track (measure) of a chart, counted from zero.
#[derive(Clone, Copy, PartialEq, Eq, Structural, PartialOrd, Ord, Debug, Hash)]
pub struct Track(pub u64);

/// A place within a track: the fraction `numerator / denominator` of its length.
#[derive(Clone, Copy, PartialEq, Eq, Structural, Debug, Hash)]
pub struct ObjTime {
    track: Track,
    numerator: u64,
    denominator: u64,
}

impl ObjTime {
    #[verifier::type_invariant]
    spec fn inv(self) -> bool {
        self.denominator > 0
    }

    /// The track.
    pub closed spec fn spec_track(self) -> Track {
        self.track
    }

    /// The numerator of the fraction.
    pub closed spec fn spec_numerator(self) -> u64 {
        self.numerator
    }

    /// The denominator of the fraction, which is positive.
    pub closed spec fn spec_denominator(self) -> u64 {
        if self.denominator == 0 {
            1
        } else {
            self.denominator
        }
    }

    /// The place at the given fraction of a track.
    pub closed spec fn at(track: Track, numerator: u64, denominator: u64) -> Self {
        ObjTime { track, numerator, denominator }
    }

    /// A place has the parts that it was made of.
    pub broadcast proof fn lemma_at(track: Track, numerator: u64, denominator: u64)
        requires
            denominator > 0,
        ensures
            (#[trigger] Self::at(track, numerator, denominator)).spec_track() == track,
            Self::at(track, numerator, denominator).spec_numerator() == numerator,
            Self::at(track, numerator, denominator).spec_denominator() == denominator,
    {
    }

    /// The place at the given fraction of a track; there is none where the denominator
    /// is zero.
    pub fn new(track: Track, numerator: u64, denominator: u64) -> (r: Option<Self>)
        ensures
            r == if denominator == 0 {
                None
            } else {
                Some(Self::at(track, numerator, denominator))
            },
    {
        if denominator == 0 {
            None
        } else {
            Some(ObjTime { track, numerator, denominator })
        }
    }

    /// The start of a track.
    pub fn start_of(track: Track) -> (r: Self)
        ensures
            r == Self::at(track, 0, 1),
    {
        ObjTime { track, numerator: 0, denominator: 1 }
    }

    /// The track.
    pub fn track(&self) -> (r: Track)
        ensures
            r == self.spec_track(),
    {
        self.track
    }

    /// The numerator of the fraction.
    pub fn numerator(&self) -> (r: u64)
        ensures
            r == self.spec_numerator(),
    {
        self.numerator
    }

    /// The denominator of the fraction.
    pub fn denominator(&self) -> (r: u64)
        ensures
            r == self.spec_denominator(),
            r > 0,
    {
        proof {
            use_type_invariant(self);
        }
        self.denominator
    }
}

impl OrderKey for Track {
    open spec fn below(self, other: Self) -> bool {
        self.0 < other.0
    }

    proof fn lemma_irreflexive(a: Self) {
    }

    proof fn lemma_transitive(a: Self, b: Self, c: Self) {
    }

    proof fn lemma_not_below_transitive(a: Self, b: Self, c: Self) {
    }

    fn is_below(&self, other: &Self) -> (r: bool) {
        self.0 < other.0
    }
}

/// Fractions are ordered transitively by their cross products.
proof fn lemma_fractions_transitive(n1: int, d1: int, n2: int, d2: int, n3: int, d3: int)
    requires
        d1 > 0,
        d2 > 0,
        d3 > 0,
    ensures
        n1 * d2 < n2 * d1 && n2 * d3 < n3 * d2 ==> n1 * d3 < n3 * d1,
        n1 * d2 >= n2 * d1 && n2 * d3 >= n3 * d2 ==> n1 * d3 >= n3 * d1,
{
    if n1 * d2 < n2 * d1 && n2 * d3 < n3 * d2 {
        assert((n1 * d2) * d3 < (n2 * d1) * d3) by (nonlinear_arith)
            requires
                n1 * d2 < n2 * d1,
                d3 > 0,
        ;
        assert((n2 * d3) * d1 < (n3 * d2) * d1) by (nonlinear_arith)
            requires
                n2 * d3 < n3 * d2,
                d1 > 0,
        ;
        assert((n2 * d1) * d3 == (n2 * d3) * d1) by (nonlinear_arith);
        assert(n1 * d3 < n3 * d1) by (nonlinear_arith)
            requires
                (n1 * d2) * d3 < (n3 * d2) * d1,
                d2 > 0,
        ;
    }
    if n1 * d2 >= n2 * d1 && n2 * d3 >= n3 * d2 {
        assert((n1 * d2) * d3 >= (n2 * d1) * d3) by (nonlinear_arith)
            requires
                n1 * d2 >= n2 * d1,
                d3 > 0,
        ;
        assert((n2 * d3) * d1 >= (n3 * d2) * d1) by (nonlinear_arith)
            requires
                n2 * d3 >= n3 * d2,
                d1 > 0,
        ;
        assert((n2 * d1) * d3 == (n2 * d3) * d1) by (nonlinear_arith);
        assert(n1 * d3 >= n3 * d1) by (nonlinear_arith)
            requires
                (n1 * d2) * d3 >= (n3 * d2) * d1,
                d2 > 0,
        ;
    }
}

impl OrderKey for ObjTime {
    open spec fn below(self, other: Self) -> bool {
        ||| self.spec_track().0 < other.spec_track().0
        ||| {
            &&& self.spec_track().0 == other.spec_track().0
            &&& self.spec_numerator() * other.spec_denominator() < other.spec_numerator()
                * self.spec_denominator()
        }
    }

    proof fn lemma_irreflexive(a: Self) {
    }

    proof fn lemma_transitive(a: Self, b: Self, c: Self) {
        lemma_fractions_transitive(
            a.numerator as int,
            a.spec_denominator() as int,
            b.numerator as int,
            b.spec_denominator() as int,
            c.numerator as int,
            c.spec_denominator() as int,
        );
    }

    proof fn lemma_not_below_transitive(a: Self, b: Self, c: Self) {
        lemma_fractions_transitive(
            a.numerator as int,
            a.spec_denominator() as int,
            b.numerator as int,
            b.spec_denominator() as int,
            c.numerator as int,
            c.spec_denominator() as int,
        );
    }

    fn is_below(&self, other: &Self) -> (r: bool) {
        proof {
            use_type_invariant(self);
            use_type_invariant(other);
            assert(0 <= self.numerator * other.denominator <= 0xffff_ffff_ffff_ffff
                * 0xffff_ffff_ffff_ffff) by (nonlinear_arith)
                requires
                    0 <= self.numerator <= 0xffff_ffff_ffff_ffff,
                    0 <= other.denominator <= 0xffff_ffff_ffff_ffff,
            ;
            assert(0 <= other.numerator * self.denominator <= 0xffff_ffff_ffff_ffff
                * 0xffff_ffff_ffff_ffff) by (nonlinear_arith)
                requires
                    0 <= other.numerator <= 0xffff_ffff_ffff_ffff,
                    0 <= self.denominator <= 0xffff_ffff_ffff_ffff,
            ;
        }
        self.track.0 < other.track.0 || (self.track.0 == other.track.0 && (self.numerator as u128)
            * (other.denominator as u128) < (other.numerator as u128) * (self.denominator as u128))
    }
}

/// Times are ordered by track and then by fraction: two of one track are at the same place
/// where their fractions are equal.
pub proof fn lemma_time_order(a: ObjTime, b: ObjTime)
    ensures
        a.spec_track().0 < b.spec_track().0 ==> a.below(b) && !b.below(a),
        a.spec_track() == b.spec_track() ==> {
            &&& a.below(b) <==> a.spec_numerator() * b.spec_denominator() < b.spec_numerator()
                * a.spec_denominator()
            &&& !a.below(b) && !b.below(a) <==> a.spec_numerator() * b.spec_denominator()
                == b.spec_numerator() * a.spec_denominator()
        },
{
}

/// A fraction stays in its place when it is written with larger numbers.
pub proof fn lemma_same_fraction(track: Track, n: u64, d: u64, factor: u64)
    requires
        d > 0,
        factor > 0,
        n * factor <= u64::MAX,
        d * factor <= u64::MAX,
    ensures
        ({
            let a = ObjTime::at(track, n, d);
            let b = ObjTime::at(track, (n * factor) as u64, (d * factor) as u64);
            !a.below(b) && !b.below(a)
        }),
{
    assert(d * factor > 0) by (nonlinear_arith)
        requires
            d > 0,
            factor > 0,
    ;
    assert(n * (d * factor) == (n * factor) * d) by (nonlinear_arith);
}

} // verus!

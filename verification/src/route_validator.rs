//! ROAs and the route validator that scores (prefix, origin) pairs.

use vstd::prelude::*;

use crate::prefix::Prefix;
use crate::shared::{ROARouted, ROAValidity};

verus! {

/// A Route Origin Authorization: an origin ASN may announce a prefix up to a
/// maximum length. Origin 0 marks a non-routed authorization.
#[derive(Debug, Clone)]
pub struct ROA {
    pub prefix: Prefix,
    pub origin: u32,
    pub max_length: u8,
    pub ta: Option<String>,
}

impl ROA {
    /// The validity this single ROA assigns to a (prefix, origin) pair.
    pub open spec fn spec_validity(self, prefix: Prefix, origin: u32) -> ROAValidity {
        if !Prefix::spec_covers(self.prefix, prefix) {
            ROAValidity::Unknown
        } else {
            let valid_length = prefix.len <= self.max_length;
            let valid_origin = self.origin == origin;
            if valid_length && valid_origin {
                ROAValidity::Valid
            } else if !valid_length && valid_origin {
                ROAValidity::InvalidLength
            } else if valid_length && !valid_origin {
                ROAValidity::InvalidOrigin
            } else {
                ROAValidity::InvalidLengthAndOrigin
            }
        }
    }

    /// The (validity, routed) outcome this single ROA assigns.
    pub open spec fn spec_outcome(self, prefix: Prefix, origin: u32) -> (ROAValidity, ROARouted) {
        (
            self.spec_validity(prefix, origin),
            if self.origin != 0 {
                ROARouted::Routed
            } else {
                ROARouted::NonRouted
            },
        )
    }

    /// A new ROA; without an explicit maximum length the prefix's own length
    /// is used.
    pub fn new(prefix: Prefix, origin: u32, max_length: Option<u8>) -> (r: ROA)
        ensures
            r.prefix == prefix,
            r.origin == origin,
            r.max_length == (match max_length {
                Some(ml) => ml,
                None => prefix.len,
            }),
            r.ta is None,
    {
        let ml = match max_length {
            Some(ml) => ml,
            None => prefix.len,
        };
        ROA { prefix, origin, max_length: ml, ta: None }
    }

    /// Attach a trust-anchor tag.
    pub fn with_ta(self, ta: String) -> (r: ROA)
        ensures
            r.prefix == self.prefix,
            r.origin == self.origin,
            r.max_length == self.max_length,
            r.ta == Some(ta),
    {
        ROA { ta: Some(ta), ..self }
    }

    /// A ROA is routed when its origin is a real ASN.
    pub fn is_routed(&self) -> (r: bool)
        ensures
            r == (self.origin != 0),
    {
        self.origin != 0
    }

    /// A ROA with origin 0 authorizes nobody to announce the prefix.
    pub fn is_non_routed(&self) -> (r: bool)
        ensures
            r == (self.origin == 0),
    {
        self.origin == 0
    }

    /// Whether this ROA's prefix covers the given prefix.
    pub fn covers_prefix(&self, prefix: &Prefix) -> (r: bool)
        requires
            self.prefix.wf(),
            prefix.wf(),
        ensures
            r == Prefix::spec_covers(self.prefix, *prefix),
    {
        self.prefix.covers(prefix)
    }

    /// The validity of a (prefix, origin) pair against this ROA alone.
    pub fn get_validity(&self, prefix: &Prefix, origin: u32) -> (r: ROAValidity)
        requires
            self.prefix.wf(),
            prefix.wf(),
        ensures
            r == self.spec_validity(*prefix, origin),
    {
        if !self.covers_prefix(prefix) {
            return ROAValidity::Unknown;
        }
        let valid_length = prefix.len <= self.max_length;
        let valid_origin = self.origin == origin;
        if valid_length && valid_origin {
            ROAValidity::Valid
        } else if !valid_length && valid_origin {
            ROAValidity::InvalidLength
        } else if valid_length && !valid_origin {
            ROAValidity::InvalidOrigin
        } else {
            ROAValidity::InvalidLengthAndOrigin
        }
    }

    /// The (validity, routed) outcome of a (prefix, origin) pair against this
    /// ROA alone.
    pub fn get_outcome(&self, prefix: &Prefix, origin: u32) -> (r: (ROAValidity, ROARouted))
        requires
            self.prefix.wf(),
            prefix.wf(),
        ensures
            r == self.spec_outcome(*prefix, origin),
    {
        let validity = self.get_validity(prefix, origin);
        let routed = if self.is_routed() {
            ROARouted::Routed
        } else {
            ROARouted::NonRouted
        };
        (validity, routed)
    }
}

/// The outcome of a (prefix, origin) pair against a sequence of ROAs: the
/// outcome of the first covering ROA with the smallest validity ordinal, or
/// (Unknown, Unknown) when no ROA covers the prefix.
pub open spec fn spec_roa_outcome(roas: Seq<ROA>, prefix: Prefix, origin: u32) -> (
    ROAValidity,
    ROARouted,
)
    decreases roas.len(),
{
    if roas.len() == 0 {
        (ROAValidity::Unknown, ROARouted::Unknown)
    } else {
        let rest = spec_roa_outcome(roas.drop_first(), prefix, origin);
        if Prefix::spec_covers(roas[0].prefix, prefix) {
            let first = roas[0].spec_outcome(prefix, origin);
            if rest.1 is Unknown {
                first
            } else if rest.0.spec_rank() < first.0.spec_rank() {
                rest
            } else {
                first
            }
        } else {
            rest
        }
    }
}

/// Holds the loaded ROAs and answers validity queries over all of them.
#[derive(Debug)]
pub struct RouteValidator {
    roas: Vec<ROA>,
}

impl RouteValidator {
    /// The ROAs loaded so far, in insertion order.
    pub closed spec fn view(&self) -> Seq<ROA> {
        self.roas@
    }

    /// Every stored ROA has a well-formed prefix.
    pub open spec fn wf(&self) -> bool {
        forall|i: int| 0 <= i < self@.len() ==> (#[trigger] self@[i]).prefix.wf()
    }

    /// An empty validator.
    pub fn new() -> (r: RouteValidator)
        ensures
            r@ =~= Seq::<ROA>::empty(),
            r.wf(),
    {
        RouteValidator { roas: Vec::new() }
    }

    /// Load one more ROA.
    pub fn add_roa(&mut self, roa: ROA)
        requires
            old(self).wf(),
            roa.prefix.wf(),
        ensures
            final(self)@ == old(self)@.push(roa),
            final(self).wf(),
    {
        self.roas.push(roa);
    }

    /// The (validity, routed) outcome of a (prefix, origin) pair against all
    /// loaded ROAs: the best (smallest ordinal) validity among the covering
    /// ROAs, or (Unknown, Unknown) when none covers.
    pub fn get_roa_outcome(&self, prefix: &Prefix, origin: u32) -> (r: (ROAValidity, ROARouted))
        requires
            self.wf(),
            prefix.wf(),
        ensures
            r == spec_roa_outcome(self@, *prefix, origin),
    {
        proof {
            assert(self@.skip(0) =~= self@);
        }
        self.outcome_from(0, prefix, origin)
    }

    /// The outcome over the ROAs from index `i` on.
    fn outcome_from(&self, i: usize, prefix: &Prefix, origin: u32) -> (r: (ROAValidity, ROARouted))
        requires
            self.wf(),
            prefix.wf(),
            i <= self.roas.len(),
        ensures
            r == spec_roa_outcome(self@.skip(i as int), *prefix, origin),
        decreases self.roas.len() - i,
    {
        if i == self.roas.len() {
            proof {
                assert(self@.skip(i as int) =~= Seq::<ROA>::empty());
            }
            (ROAValidity::Unknown, ROARouted::Unknown)
        } else {
            let rest = self.outcome_from(i + 1, prefix, origin);
            proof {
                assert(self@.skip(i as int).drop_first() =~= self@.skip(i as int + 1));
                assert(self@.skip(i as int)[0] == self@[i as int]);
            }
            if self.roas[i].covers_prefix(prefix) {
                let first = self.roas[i].get_outcome(prefix, origin);
                if matches!(rest.1, ROARouted::Unknown) {
                    first
                } else if rest.0.rank() < first.0.rank() {
                    rest
                } else {
                    first
                }
            } else {
                rest
            }
        }
    }
}

/// When some loaded ROA covers a prefix, the validator's answer for that
/// prefix is never Unknown: refining a covered prefix cannot escape the ROA.
pub proof fn lemma_covered_prefix_never_unknown(
    roas: Seq<ROA>,
    prefix: Prefix,
    origin: u32,
    i: int,
)
    requires
        0 <= i < roas.len(),
        Prefix::spec_covers(roas[i].prefix, prefix),
    ensures
        !(spec_roa_outcome(roas, prefix, origin).0 is Unknown),
        !(spec_roa_outcome(roas, prefix, origin).1 is Unknown),
    decreases roas.len(),
{
    let r = spec_roa_outcome(roas, prefix, origin);
    if i == 0 {
        let rest = spec_roa_outcome(roas.drop_first(), prefix, origin);
        lemma_outcome_unknown_shape(roas.drop_first(), prefix, origin);
    } else {
        assert(roas.drop_first()[i - 1] == roas[i]);
        lemma_covered_prefix_never_unknown(roas.drop_first(), prefix, origin, i - 1);
        lemma_outcome_unknown_shape(roas, prefix, origin);
    }
}

/// The validity and routed parts of an outcome are Unknown together: either
/// no ROA covered the prefix, or one did and neither part is Unknown.
pub proof fn lemma_outcome_unknown_shape(roas: Seq<ROA>, prefix: Prefix, origin: u32)
    ensures
        (spec_roa_outcome(roas, prefix, origin).1 is Unknown) ==> spec_roa_outcome(
            roas,
            prefix,
            origin,
        ).0 is Unknown,
        !(spec_roa_outcome(roas, prefix, origin).1 is Unknown) ==> !(spec_roa_outcome(
            roas,
            prefix,
            origin,
        ).0 is Unknown),
    decreases roas.len(),
{
    if roas.len() > 0 {
        lemma_outcome_unknown_shape(roas.drop_first(), prefix, origin);
    }
}

} // verus!

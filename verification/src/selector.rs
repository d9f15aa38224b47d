use vstd::prelude::*;

use crate::error::Error;

verus! {

broadcast use vstd::array::group_array_axioms;

/// A selector: either the 4-byte hash identifying a function (or error,
/// etc.) or the 32-byte hash identifying an event. No other length is
/// representable.
#[derive(Debug, Clone, Copy, Eq, Hash)]
pub enum Selector {
    Four([u8; 4]),
    ThirtyTwo([u8; 32]),
}

impl View for Selector {
    type V = Seq<u8>;

    open spec fn view(&self) -> Seq<u8> {
        match self {
            Selector::Four(bytes) => bytes@,
            Selector::ThirtyTwo(bytes) => bytes@,
        }
    }
}

/// The unique selector holding the given bytes, for byte sequences of
/// length 4 or 32.
pub open spec fn selector_of(bytes: Seq<u8>) -> Selector {
    choose|s: Selector| s@ == bytes
}

/// Compares two fixed-size byte arrays element by element.
fn bytes_eq<const N: usize>(a: &[u8; N], b: &[u8; N]) -> (r: bool)
    ensures
        r == (a@ == b@),
{
    let mut i: usize = 0;
    while i < N
        invariant
            0 <= i <= N,
            forall|j: int| 0 <= j < i ==> a@[j] == b@[j],
        decreases N - i,
    {
        if a[i] != b[i] {
            return false;
        }
        i = i + 1;
    }
    proof {
        assert(a@ =~= b@);
    }
    true
}

impl PartialEq for Selector {
    fn eq(&self, other: &Selector) -> bool {
        match (self, other) {
            (Selector::Four(a), Selector::Four(b)) => bytes_eq(a, b),
            (Selector::ThirtyTwo(a), Selector::ThirtyTwo(b)) => bytes_eq(a, b),
            _ => {
                proof {
                    assert(self@.len() != other@.len());
                }
                false
            },
        }
    }
}

impl vstd::std_specs::cmp::PartialEqSpecImpl for Selector {
    open spec fn obeys_eq_spec() -> bool {
        true
    }

    open spec fn eq_spec(&self, other: &Selector) -> bool {
        self@ == other@
    }
}

impl Selector {
    /// A selector holds exactly 4 or exactly 32 bytes.
    pub proof fn lemma_len(self)
        ensures
            self@.len() == 4 || self@.len() == 32,
    {
    }

    /// Two selectors are equal exactly when they hold the same bytes: the
    /// byte length already determines the variant, so equal byte content
    /// forces equal variants.
    pub proof fn lemma_eq_iff_same_bytes(a: Selector, b: Selector)
        ensures
            a == b <==> a@ == b@,
    {
        if a@ == b@ {
            match (a, b) {
                (Selector::Four(x), Selector::Four(y)) => {
                    assert(x@ == y@);
                    assert(x =~= y);
                },
                (Selector::ThirtyTwo(x), Selector::ThirtyTwo(y)) => {
                    assert(x@ == y@);
                    assert(x =~= y);
                },
                _ => {
                    assert(a@.len() != b@.len());
                },
            }
        }
    }

    /// Builds a selector from an arbitrary byte slice: 4 bytes give the
    /// `Four` variant, 32 bytes the `ThirtyTwo` variant, and every other
    /// length (including 0) is rejected with `InvalidLength`.
    pub fn try_from_bytes(bytes: &[u8]) -> (r: Result<Selector, Error>)
        ensures
            bytes@.len() == 4 || bytes@.len() == 32 ==> (r matches Ok(s) && s@ == bytes@),
            !(bytes@.len() == 4 || bytes@.len() == 32) ==> r == Err::<Selector, Error>(
                Error::InvalidLength(bytes@.len() as usize),
            ),
    {
        if bytes.len() == 4 {
            let arr: [u8; 4] = [bytes[0], bytes[1], bytes[2], bytes[3]];
            proof {
                assert(arr@ =~= bytes@);
            }
            Ok(Selector::Four(arr))
        } else if bytes.len() == 32 {
            let mut arr: [u8; 32] = [0u8; 32];
            let mut i: usize = 0;
            while i < 32
                invariant
                    0 <= i <= 32,
                    bytes@.len() == 32,
                    forall|j: int| 0 <= j < i ==> arr@[j] == bytes@[j],
                decreases 32 - i,
            {
                arr[i] = bytes[i];
                i = i + 1;
            }
            proof {
                assert(arr@ =~= bytes@);
            }
            Ok(Selector::ThirtyTwo(arr))
        } else {
            Err(Error::InvalidLength(bytes.len()))
        }
    }
}

impl<'a> TryFrom<&'a [u8]> for Selector {
    type Error = Error;

    fn try_from(bytes: &'a [u8]) -> Result<Selector, Error> {
        let r = Selector::try_from_bytes(bytes);
        proof {
            if bytes@.len() == 4 || bytes@.len() == 32 {
                let s = r->Ok_0;
                assert(exists|x: Selector| x@ == bytes@);
                Selector::lemma_eq_iff_same_bytes(s, selector_of(bytes@));
            }
        }
        r
    }
}

impl<'a> vstd::std_specs::convert::TryFromSpecImpl<&'a [u8]> for Selector {
    open spec fn obeys_try_from_spec() -> bool {
        true
    }

    open spec fn try_from_spec(bytes: &'a [u8]) -> Result<Selector, Error> {
        if bytes@.len() == 4 || bytes@.len() == 32 {
            Ok(selector_of(bytes@))
        } else {
            Err(Error::InvalidLength(bytes@.len() as usize))
        }
    }
}

impl From<[u8; 4]> for Selector {
    fn from(bytes: [u8; 4]) -> Selector {
        Selector::Four(bytes)
    }
}

impl vstd::std_specs::convert::FromSpecImpl<[u8; 4]> for Selector {
    open spec fn obeys_from_spec() -> bool {
        true
    }

    open spec fn from_spec(bytes: [u8; 4]) -> Selector {
        Selector::Four(bytes)
    }
}

impl From<[u8; 32]> for Selector {
    fn from(bytes: [u8; 32]) -> Selector {
        Selector::ThirtyTwo(bytes)
    }
}

impl vstd::std_specs::convert::FromSpecImpl<[u8; 32]> for Selector {
    open spec fn obeys_from_spec() -> bool {
        true
    }

    open spec fn from_spec(bytes: [u8; 32]) -> Selector {
        Selector::ThirtyTwo(bytes)
    }
}

} // verus!

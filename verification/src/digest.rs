//! Digests of values, by which values are told apart when trees are flattened or reducers are
//! picked out by value.
use std::hash::{Hash, Hasher};
use std::marker::PhantomData;
use crate::text::{hex_text, push_hex};
use vstd::prelude::*;
use xxhash_rust::xxh3::Xxh3;

verus! {

/// The xxh3 digest (default seed and secret, `xxhash_rust::xxh3::Xxh3`) of what the value's
/// `Hash` impl writes into the hasher. What comes back depends on how the value's type
/// implements `Hash`, which is the user's code, so no property of the result is claimed; two
/// calls on equal values are not even claimed to agree.
#[verifier::external_body]
pub(crate) fn xxh3_digest<X: Hash>(value: &X) -> u64 {
    let mut hasher = Xxh3::new();
    value.hash(&mut hasher);
    hasher.finish()
}

/// The debug text of a digest `d` of values of the type that `label` names: `Digest<`, the name
/// and `>`, then, unless the precision is zero, the digest's text at that precision in round
/// brackets.
pub open spec fn digest_debug_text(label: Seq<char>, d: u64, precision: Option<usize>) -> Seq<char> {
    seq!['D', 'i', 'g', 'e', 's', 't', '<'] + label + seq!['>'] + if precision == Some(0usize) {
        Seq::<char>::empty()
    } else {
        seq!['('] + hex_text(d, precision) + seq![')']
    }
}

/// A non-zero digest of a value of type `T`.
pub struct Digest<T>(u64, PhantomData<T>);

impl<T> Digest<T> {
    /// A digest is never zero.
    #[verifier::type_invariant]
    closed spec fn nonzero(self) -> bool {
        self.0 != 0
    }

    /// The digest as a number.
    pub closed spec fn spec_inner(self) -> u64 {
        self.0
    }

    /// The digest with the given hash, or `None` when the hash is zero.
    pub open spec fn spec_from_hash(hash: u64) -> Option<Self> {
        if hash == 0 {
            None
        } else {
            Some(Self::spec_of_nonzero(hash))
        }
    }

    /// The digest whose number is `hash`.
    pub closed spec fn spec_of_nonzero(hash: u64) -> Self {
        Digest(hash, PhantomData)
    }

    /// The digest with the given hash, or `None` when the hash is zero.
    pub fn from_hash(hash: u64) -> (r: Option<Self>)
        ensures
            r == Self::spec_from_hash(hash),
            hash == 0 <==> r is None,
            r matches Some(d) ==> d.spec_inner() == hash,
    {
        proof {
            assert(hash != 0 ==> Self::spec_of_nonzero(hash).spec_inner() == hash);
        }
        if hash == 0 {
            None
        } else {
            Some(Digest(hash, PhantomData))
        }
    }

    /// Digests a value: the digest of the xxh3 hash of what its `Hash` impl writes, or `None`
    /// when that hash comes out as zero.
    pub fn of(value: &T) -> (r: Option<Self>)
        where
            T: Hash,
        ensures
            exists|hash: u64| r == #[trigger] Self::spec_from_hash(hash),
    {
        let hash = xxh3_digest(value);
        Self::from_hash(hash)
    }

    /// Returns the digest as a number, which is never zero.
    pub fn to_inner(&self) -> (r: u64)
        ensures
            r == self.spec_inner(),
            r != 0,
    {
        proof {
            use_type_invariant(self);
        }
        self.0
    }
}

impl<T> Digest<T> {
    /// The digest as sixteen upper-case hexadecimal digits, cut, or filled with zeros on the
    /// right, to the precision when one is given.
    pub fn text(&self, precision: Option<usize>) -> (r: String)
        ensures
            r@ == hex_text(self.spec_inner(), precision),
    {
        let mut s = String::new();
        push_hex(&mut s, self.0, precision);
        assert(s@ =~= hex_text(self.spec_inner(), precision));
        s
    }

    /// The debug text of the digest, with the given label naming `T`.
    pub fn debug_text(&self, label: &str, precision: Option<usize>) -> (r: String)
        ensures
            r@ == digest_debug_text(label@, self.spec_inner(), precision),
    {
        let mut s = String::new();
        s.push('D');
        s.push('i');
        s.push('g');
        s.push('e');
        s.push('s');
        s.push('t');
        s.push('<');
        s.append(label);
        s.push('>');
        let cut = match precision {
            Some(p) => p == 0,
            None => false,
        };
        if !cut {
            s.push('(');
            push_hex(&mut s, self.0, precision);
            s.push(')');
        }
        assert(s@ =~= digest_debug_text(label@, self.spec_inner(), precision));
        s
    }
}

impl<T> Clone for Digest<T> {
    fn clone(&self) -> (r: Self)
        ensures
            r == *self,
    {
        proof {
            use_type_invariant(self);
        }
        Digest(self.0, PhantomData)
    }
}

} // verus!

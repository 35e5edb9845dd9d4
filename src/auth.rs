use vstd::prelude::*;

use crate::coin::Addr;
use crate::err::XcosmError;

verus! {

/// An identity that can be compared with another by its canonical text.
pub trait Identity: Sized {
    /// The identity's canonical text.
    spec fn key(&self) -> Seq<char>;

    /// Whether `self` and `other` are the same identity.
    fn same_as(&self, other: &Self) -> (r: bool)
        ensures
            r == (self.key() == other.key()),
    ;

    /// An equal copy.
    fn copy_identity(&self) -> (r: Self)
        ensures
            r.key() == self.key(),
    ;
}

impl Identity for Addr {
    open spec fn key(&self) -> Seq<char> {
        self@
    }

    fn same_as(&self, other: &Addr) -> (r: bool) {
        self.same(other)
    }

    fn copy_identity(&self) -> (r: Addr) {
        self.duplicate()
    }
}

impl Identity for String {
    open spec fn key(&self) -> Seq<char> {
        self@
    }

    fn same_as(&self, other: &String) -> (r: bool) {
        *self == *other
    }

    fn copy_identity(&self) -> (r: String) {
        self.clone()
    }
}

/// Who may perform an action.
#[derive(Debug, Clone, PartialEq, Eq)]
pub enum Authorized<T = Addr> {
    /// Single authorized identity.
    One(T),
    /// Several authorized identities.
    Many(Vec<T>),
    /// Nobody is authorized.
    Nobody,
    /// Everybody is authorized.
    Any,
}

/// The number of the first `n` requestors that `a` permits.
pub open spec fn permitted_upto<T: Identity>(a: Authorized<T>, rs: Seq<T>, n: int) -> nat
    decreases n,
{
    if n <= 0 || n > rs.len() {
        0
    } else {
        permitted_upto(a, rs, n - 1) + if a.permits(rs[n - 1].key()) {
            1nat
        } else {
            0nat
        }
    }
}

impl<T: Identity> Authorized<T> {
    /// Whether the policy lets the identity with text `who` act.
    pub open spec fn permits(&self, who: Seq<char>) -> bool {
        match self {
            Authorized::One(a) => a.key() == who,
            Authorized::Many(v) => exists|i: int| 0 <= i < v@.len() && v@[i].key() == who,
            Authorized::Nobody => false,
            Authorized::Any => true,
        }
    }

    /// A policy for a group: nobody for an empty group, `One` for a single
    /// identity, `Many` for more. `Any` is never inferred.
    pub fn new(group: &[T]) -> (r: Self)
        ensures
            group@.len() == 0 ==> r is Nobody,
            group@.len() == 1 ==> r is One && r->One_0.key() == group@[0].key(),
            group@.len() > 1 ==> r is Many && r->Many_0@.len() == group@.len() && forall|i: int|
                0 <= i < group@.len() ==> #[trigger] r->Many_0@[i].key() == group@[i].key(),
    {
        if group.len() == 0 {
            Authorized::Nobody
        } else if group.len() == 1 {
            Authorized::One(group[0].copy_identity())
        } else {
            let mut v: Vec<T> = Vec::new();
            let mut i: usize = 0;
            while i < group.len()
                invariant
                    i <= group@.len(),
                    v@.len() == i,
                    forall|k: int| 0 <= k < i ==> #[trigger] v@[k].key() == group@[k].key(),
                decreases group@.len() - i,
            {
                v.push(group[i].copy_identity());
                i += 1;
            }
            Authorized::Many(v)
        }
    }

    fn permits_exec(&self, requestor: &T) -> (r: bool)
        ensures
            r == self.permits(requestor.key()),
    {
        match self {
            Authorized::One(a) => a.same_as(requestor),
            Authorized::Many(v) => {
                let mut i: usize = 0;
                while i < v.len()
                    invariant
                        self is Many && self->Many_0 == *v,
                        i <= v@.len(),
                        forall|k: int| 0 <= k < i ==> v@[k].key() != requestor.key(),
                    decreases v@.len() - i,
                {
                    if v[i].same_as(requestor) {
                        assert(v@[i as int].key() == requestor.key());
                        return true;
                    }
                    i += 1;
                }
                false
            },
            Authorized::Nobody => false,
            Authorized::Any => true,
        }
    }

    /// Authorize a single requestor.
    pub fn authorize(&self, requestor: &T) -> (r: Result<(), XcosmError>)
        ensures
            r is Ok <==> self.permits(requestor.key()),
            r is Err ==> r->Err_0 == (XcosmError::Unauthorized {}),
    {
        if self.permits_exec(requestor) {
            Ok(())
        } else {
            Err(XcosmError::Unauthorized {})
        }
    }

    /// Authorize if at least one of the requestors is permitted; an empty list
    /// is refused.
    pub fn authorize_any(&self, requestors: &Vec<T>) -> (r: Result<(), XcosmError>)
        ensures
            r is Ok <==> exists|i: int| 0 <= i < requestors@.len() && self.permits(#[trigger] requestors@[i].key()),
            r is Err ==> r->Err_0 == (XcosmError::Unauthorized {}),
    {
        let mut i: usize = 0;
        while i < requestors.len()
            invariant
                i <= requestors@.len(),
                forall|k: int| 0 <= k < i ==> !self.permits(#[trigger] requestors@[k].key()),
            decreases requestors@.len() - i,
        {
            if self.permits_exec(&requestors[i]) {
                return Ok(());
            }
            i += 1;
        }
        Err(XcosmError::Unauthorized {})
    }

    /// Authorize if every requestor is permitted; an empty list is accepted.
    pub fn authorize_all(&self, requestors: &Vec<T>) -> (r: Result<(), XcosmError>)
        ensures
            r is Ok <==> forall|i: int| 0 <= i < requestors@.len() ==> self.permits(#[trigger] requestors@[i].key()),
            r is Err ==> r->Err_0 == (XcosmError::Unauthorized {}),
    {
        let mut i: usize = 0;
        while i < requestors.len()
            invariant
                i <= requestors@.len(),
                forall|k: int| 0 <= k < i ==> self.permits(#[trigger] requestors@[k].key()),
            decreases requestors@.len() - i,
        {
            if !self.permits_exec(&requestors[i]) {
                return Err(XcosmError::Unauthorized {});
            }
            i += 1;
        }
        Ok(())
    }

    /// Authorize if at least `min` of the requestors are permitted; a `min` of
    /// zero is always met.
    pub fn authorize_at_least(&self, requestors: &Vec<T>, min: u32) -> (r: Result<(), XcosmError>)
        ensures
            r is Ok <==> permitted_upto(*self, requestors@, requestors@.len() as int) >= min,
            r is Err ==> r->Err_0 == (XcosmError::Unauthorized {}),
    {
        let mut count: usize = 0;
        let mut i: usize = 0;
        while i < requestors.len()
            invariant
                i <= requestors@.len(),
                count as nat == permitted_upto(*self, requestors@, i as int),
                count <= i,
            decreases requestors@.len() - i,
        {
            if self.permits_exec(&requestors[i]) {
                count += 1;
            }
            i += 1;
        }
        if count as u64 >= min as u64 {
            Ok(())
        } else {
            Err(XcosmError::Unauthorized {})
        }
    }

    /// The identities named by the policy: none for `Nobody` and `Any`.
    pub fn members(&self) -> (r: Vec<T>)
        ensures
            self is Nobody || self is Any ==> r@.len() == 0,
            self is One ==> r@.len() == 1 && r@[0].key() == self->One_0.key(),
            self is Many ==> r@.len() == self->Many_0@.len() && forall|i: int|
                0 <= i < r@.len() ==> #[trigger] r@[i].key() == self->Many_0@[i].key(),
    {
        let mut r: Vec<T> = Vec::new();
        match self {
            Authorized::One(a) => {
                r.push(a.copy_identity());
            },
            Authorized::Many(v) => {
                let mut i: usize = 0;
                while i < v.len()
                    invariant
                        i <= v@.len(),
                        r@.len() == i,
                        forall|k: int| 0 <= k < i ==> #[trigger] r@[k].key() == v@[k].key(),
                    decreases v@.len() - i,
                {
                    r.push(v[i].copy_identity());
                    i += 1;
                }
            },
            Authorized::Nobody => {},
            Authorized::Any => {},
        }
        r
    }
}

impl<T: Identity> Default for Authorized<T> {
    fn default() -> (r: Self)
        ensures
            r is Nobody,
    {
        Authorized::Nobody
    }
}

} // verus!

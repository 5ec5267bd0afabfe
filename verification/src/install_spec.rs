//! Structured installation parameters of a package.

use vstd::prelude::*;

verus! {

use crate::graph::str_eq;
use crate::spec_ops::ComponentSpec;
use crate::Error;

/// An identifier of a resolved package: its name and version.
#[derive(Clone, Debug)]
pub struct Ident {
    pub name: String,
    pub version: String,
}

/// One installation requirement: a named package at a version, optionally
/// pinned to whatever version resolution selects.
#[derive(Clone, Debug)]
pub struct Request {
    pub name: String,
    pub version: String,
    pub pin: bool,
}

/// An environment operation applied on installation.
#[derive(Clone, Debug)]
pub enum EnvOp {
    Assign(String, String),
    Append(String, String),
    Prepend(String, String),
}

/// Whether some request in `s` carries the name `n`.
pub open spec fn has_request(s: Seq<Request>, n: Seq<char>) -> bool {
    exists|i: int| 0 <= i < s.len() && (#[trigger] s[i]).name@ == n
}

/// The position of the first request named `n`.
pub open spec fn first_request(s: Seq<Request>, n: Seq<char>) -> int {
    choose|i: int|
        0 <= i < s.len() && (#[trigger] s[i]).name@ == n && (forall|j: int|
            0 <= j < i ==> s[j].name@ != n)
}

/// No two requests carry the same name.
pub open spec fn requests_unique(s: Seq<Request>) -> bool {
    forall|i: int, j: int|
        #![trigger s[i], s[j]]
        0 <= i < j < s.len() ==> s[i].name@ != s[j].name@
}

/// A set of structured installation parameters for a package.
pub struct InstallSpec {
    pub requirements: Vec<Request>,
    pub embedded: Vec<Ident>,
    pub components: Vec<ComponentSpec>,
    pub environment: Vec<EnvOp>,
}

impl InstallSpec {
    /// An empty specification.
    /// Each requirement name occurs at most once.
    pub open spec fn wf(self) -> bool {
        requests_unique(self.requirements@)
    }

    pub fn new() -> (r: InstallSpec)
        ensures
            r.wf(),
            r.requirements@ == Seq::<Request>::empty(),
            r.embedded@ == Seq::<Ident>::empty(),
            r.components@ == Seq::<ComponentSpec>::empty(),
            r.environment@ == Seq::<EnvOp>::empty(),
    {
        InstallSpec {
            requirements: Vec::new(),
            embedded: Vec::new(),
            components: Vec::new(),
            environment: Vec::new(),
        }
    }

    /// Adds or updates a requirement.  A request for the same name
    /// replaces the existing one in place; otherwise the new request is
    /// appended to the list.  Exactly one request of that name remains.
    #[verifier::loop_isolation(false)]
    pub fn upsert_requirement(&mut self, request: Request)
        requires
            old(self).wf(),
        ensures
            final(self).wf(),
            has_request(final(self).requirements@, request.name@),
            final(self).embedded == old(self).embedded,
            final(self).components == old(self).components,
            final(self).environment == old(self).environment,
            has_request(old(self).requirements@, request.name@) ==> {
                let i = first_request(old(self).requirements@, request.name@);
                final(self).requirements@ == old(self).requirements@.update(i, request)
            },
            !has_request(old(self).requirements@, request.name@) ==> final(self).requirements@
                == old(self).requirements@.push(request),
    {
        let ghost orig = self.requirements@;
        let n = self.requirements.len();
        let mut i: usize = 0;
        while i < n
            invariant
                i <= n,
                self.requirements@ == orig,
                self.embedded == old(self).embedded,
                self.components == old(self).components,
                self.environment == old(self).environment,
                forall|j: int| 0 <= j < i ==> (#[trigger] orig[j]).name@ != request.name@,
            decreases n - i,
        {
            if str_eq(self.requirements[i].name.as_str(), request.name.as_str()) {
                proof {
                    assert(orig[i as int].name@ == request.name@);
                    assert(first_request(orig, request.name@) == i as int) by {
                        let k = first_request(orig, request.name@);
                        assert(0 <= k < orig.len() && orig[k].name@ == request.name@ && (
                        forall|j: int| 0 <= j < k ==> orig[j].name@ != request.name@));
                    }
                }
                self.requirements.set(i, request);
                proof {
                    assert(self.requirements@[i as int].name@ == request.name@);
                    assert(has_request(self.requirements@, request.name@));
                    assert(requests_unique(self.requirements@)) by {
                        assert forall|x: int, y: int| 0 <= x < y < self.requirements@.len()
                            implies (#[trigger] self.requirements@[x]).name@ != (
                        #[trigger] self.requirements@[y]).name@ by {
                            assert(self.requirements@[x].name@ == orig[x].name@);
                            assert(self.requirements@[y].name@ == orig[y].name@);
                        }
                    }
                }
                return ;
            }
            i = i + 1;
        }
        proof {
            if has_request(orig, request.name@) {
                let j = choose|j: int|
                    0 <= j < orig.len() && (#[trigger] orig[j]).name@ == request.name@;
            }
        }
        let ghost prev = self.requirements@;
        self.requirements.push(request);
        proof {
            assert(self.requirements@[self.requirements@.len() - 1].name@ == request.name@);
            assert(has_request(self.requirements@, request.name@));
            assert(requests_unique(self.requirements@)) by {
                assert forall|x: int, y: int| 0 <= x < y < self.requirements@.len() implies (
                #[trigger] self.requirements@[x]).name@ != (
                #[trigger] self.requirements@[y]).name@ by {
                    if y < self.requirements@.len() - 1 {
                        assert(self.requirements@[x] == prev[x]);
                        assert(self.requirements@[y] == prev[y]);
                    } else {
                        assert(self.requirements@[x] == prev[x]);
                        assert(prev[x].name@ != request.name@);
                    }
                }
            }
        }
    }

    /// Whether the specification asks for nothing: no requirements, no
    /// embedded packages, and only the default (empty) component set.
    pub fn is_default(&self) -> (r: bool)
        ensures
            r == (self.requirements@.len() == 0 && self.embedded@.len() == 0
                && self.components@.len() == 0),
    {
        self.requirements.is_empty() && self.embedded.is_empty() && self.components.is_empty()
    }

    /// Rewrites every pinned request to the version of the resolved
    /// package of the same name.  A pinned request with no resolved
    /// counterpart is an error, and the specification is left unchanged.
    #[verifier::loop_isolation(false)]
    pub fn render_all_pins(&mut self, resolved: &Vec<Ident>) -> (r: crate::Result<()>)
        ensures
            final(self).embedded == old(self).embedded,
            final(self).components == old(self).components,
            final(self).environment == old(self).environment,
            match r {
                Ok(_) => {
                    &&& final(self).requirements@.len() == old(self).requirements@.len()
                    &&& forall|i: int|
                        0 <= i < old(self).requirements@.len() ==> {
                            let q = #[trigger] old(self).requirements@[i];
                            let f = final(self).requirements@[i];
                            &&& f.name@ == q.name@
                            &&& f.pin == q.pin
                            &&& (!q.pin ==> f.version@ == q.version@)
                            &&& (q.pin ==> exists|k: int|
                                0 <= k < resolved@.len() && (#[trigger] resolved@[k]).name@
                                    == q.name@ && f.version@ == resolved@[k].version@)
                        }
                },
                Err(_) => {
                    &&& final(self).requirements == old(self).requirements
                    &&& exists|i: int|
                        0 <= i < old(self).requirements@.len() && (
                        #[trigger] old(self).requirements@[i]).pin && (forall|k: int|
                            0 <= k < resolved@.len()
                                ==> (#[trigger] resolved@[k]).name@ != old(
                                self,
                            ).requirements@[i].name@)
                },
            },
    {
        let ghost orig = self.requirements@;
        let mut out: Vec<Request> = Vec::new();
        let n = self.requirements.len();
        let mut i: usize = 0;
        while i < n
            invariant
                i <= n,
                self.requirements@ == orig,
                out@.len() == i,
                forall|j: int|
                    0 <= j < i ==> {
                        let q = #[trigger] orig[j];
                        let f = out@[j];
                        &&& f.name@ == q.name@
                        &&& f.pin == q.pin
                        &&& (!q.pin ==> f.version@ == q.version@)
                        &&& (q.pin ==> exists|k: int|
                            0 <= k < resolved@.len() && (#[trigger] resolved@[k]).name@ == q.name@
                                && f.version@ == resolved@[k].version@)
                    },
            decreases n - i,
        {
            let q = &self.requirements[i];
            if q.pin {
                let rn = resolved.len();
                let mut k: usize = 0;
                let mut hit: Option<usize> = None;
                while k < rn
                    invariant
                        k <= rn,
                        i < n,
                        self.requirements@ == orig,
                        match hit {
                            Some(x) => x < rn && resolved@[x as int].name@ == orig[
                                i as int].name@,
                            None => forall|x: int|
                                0 <= x < k ==> (#[trigger] resolved@[x]).name@ != orig[
                                    i as int].name@,
                        },
                    decreases rn - k,
                {
                    if hit.is_none() && str_eq(
                        resolved[k].name.as_str(),
                        self.requirements[i].name.as_str(),
                    ) {
                        hit = Some(k);
                    }
                    k = k + 1;
                }
                match hit {
                    Some(x) => {
                        out.push(
                            Request {
                                name: self.requirements[i].name.clone(),
                                version: resolved[x].version.clone(),
                                pin: true,
                            },
                        );
                    },
                    None => {
                        return Err(
                            Error::String("no resolved package renders this pin".to_owned()),
                        );
                    },
                }
            } else {
                out.push(
                    Request {
                        name: q.name.clone(),
                        version: q.version.clone(),
                        pin: false,
                    },
                );
            }
            i = i + 1;
        }
        self.requirements = out;
        Ok(())
    }
}

} // verus!

//! The message-authorization gate.
//!
//! Given the policy looked up for its (resource, action), the peer
//! identity taken from the message, and that identity's attributes, the
//! gate overlays the attributes (prefixed `subject.`) onto its base
//! environment and evaluates the policy. Every failure on the way —
//! no policy, no identity, no attributes, an evaluation error, or a
//! non-boolean result — denies.

use vstd::prelude::*;

verus! {

use crate::env::Env;
use crate::error::EvalErrorS;
use crate::error::StorageError;
use crate::eval::spec_eval;
use crate::expr::Expr;
use crate::expr::ExprS;
use crate::policy::Policy;
use crate::strings::chars_vec;
use crate::strings::has_whitespace;
use crate::strings::spec_has_whitespace;
use crate::strings::string_from_utf8;
use crate::types::Action;
use crate::types::Resource;
use vstd::utf8::decode_utf8;
use vstd::utf8::encode_utf8_decode_utf8;
use vstd::utf8::valid_utf8;

/// Why a message was denied.
#[derive(Debug, PartialEq, Eq)]
pub enum DenyReason {
    /// No policy is stored for the resource and action.
    NoPolicy,
    /// The policy is the constant `false`.
    ConstantFalse,
    /// The message carries no peer identity.
    NoIdentity,
    /// The attribute store has no entry for the peer identity.
    NoAttributes,
    /// Evaluation failed.
    EvalFailure(crate::error::EvalError),
    /// Evaluation ended in a value that is not a boolean.
    NonBoolean,
    /// The policy evaluated to `false`.
    EvaluatedFalse,
    /// The policy lookup failed in storage; the deny is transient.
    StorageFailure(String),
}

/// The models of fetched attributes: key characters and raw value bytes.
pub open spec fn attrs_model(s: Seq<(String, Vec<u8>)>) -> Seq<(Seq<char>, Seq<u8>)> {
    Seq::new(s.len(), |i: int| (s[i].0@, s[i].1@))
}

/// The per-request environment: each attribute `(k, v)` in order binds
/// `subject.k` to the UTF-8 decoding of `v`, skipping keys that contain
/// white space, values that are not UTF-8, and — unless `overwrite` is
/// set — keys that are already bound.
pub open spec fn spec_augment(
    env: Map<Seq<char>, ExprS>,
    attrs: Seq<(Seq<char>, Seq<u8>)>,
    overwrite: bool,
) -> Map<Seq<char>, ExprS>
    decreases attrs.len(),
{
    if attrs.len() == 0 {
        env
    } else {
        let k = attrs[0].0;
        let v = attrs[0].1;
        let key = "subject."@ + k;
        let next = if spec_has_whitespace(k) {
            env
        } else if !valid_utf8(v) {
            env
        } else if !overwrite && env.contains_key(key) {
            env
        } else {
            env.insert(key, ExprS::Str(decode_utf8(v)))
        };
        spec_augment(next, attrs.drop_first(), overwrite)
    }
}

/// The verdict, as a function of what the collaborators returned.
///
/// Fail-closed: a missing policy, identity or attribute set denies, and
/// so does any evaluation outcome other than the boolean `true`.
pub open spec fn spec_authorized(
    base: Map<Seq<char>, ExprS>,
    overwrite: bool,
    policy: Option<ExprS>,
    identity_present: bool,
    attrs: Option<Seq<(Seq<char>, Seq<u8>)>>,
) -> bool {
    match policy {
        Option::None => false,
        Option::Some(p) => match p {
            ExprS::Bool(b) => b,
            _ => {
                if !identity_present {
                    false
                } else {
                    match attrs {
                        Option::None => false,
                        Option::Some(ats) => spec_eval(p, spec_augment(base, ats, overwrite))
                            == Result::<ExprS, EvalErrorS>::Ok(ExprS::Bool(true)),
                    }
                }
            },
        },
    }
}

/// Fail-closed law: whichever of policy lookup, identity extraction or
/// attribute fetch comes back empty, and whatever evaluation returns
/// short of the boolean `true`, the verdict is deny.
pub proof fn lemma_fail_closed(
    base: Map<Seq<char>, ExprS>,
    overwrite: bool,
    policy: Option<ExprS>,
    identity_present: bool,
    attrs: Option<Seq<(Seq<char>, Seq<u8>)>>,
)
    ensures
        policy is None ==> !spec_authorized(base, overwrite, policy, identity_present, attrs),
        policy is Some && !(policy->0 is Bool) && !identity_present ==> !spec_authorized(
            base,
            overwrite,
            policy,
            identity_present,
            attrs,
        ),
        policy is Some && !(policy->0 is Bool) && attrs is None ==> !spec_authorized(
            base,
            overwrite,
            policy,
            identity_present,
            attrs,
        ),
        policy is Some && !(policy->0 is Bool) && attrs is Some && spec_eval(
            policy->0,
            spec_augment(base, attrs->0, overwrite),
        ) != Result::<ExprS, EvalErrorS>::Ok(ExprS::Bool(true)) ==> !spec_authorized(
            base,
            overwrite,
            policy,
            identity_present,
            attrs,
        ),
{
}

/// Constant-policy law: a policy that is a boolean literal decides the
/// message by itself. No identity, no attributes, no environment and no
/// overwrite setting can change the verdict.
pub proof fn lemma_constant_policy_bypass(
    base: Map<Seq<char>, ExprS>,
    overwrite: bool,
    b: bool,
    identity_present: bool,
    attrs: Option<Seq<(Seq<char>, Seq<u8>)>>,
)
    ensures
        spec_authorized(base, overwrite, Some(ExprS::Bool(b)), identity_present, attrs) == b,
{
}

/// The authorization gate for one (resource, action) pair.
#[derive(Debug)]
pub struct PolicyAccessControl {
    resource: Resource,
    action: Action,
    environment: Env,
    overwrite: bool,
}

impl PolicyAccessControl {
    /// A gate over a base environment, with overwriting off.
    ///
    /// The base environment may already bind resource, action or
    /// subject attributes; with overwriting off those bindings are
    /// authoritative and fetched attributes cannot displace them.
    pub fn new(r: Resource, a: Action, env: Env) -> (g: PolicyAccessControl)
        requires
            env.wf(),
        ensures
            g.resource_name() == r@,
            g.action_name() == a@,
            g.base() == env@,
            !g.overwriting(),
            g.wf(),
    {
        PolicyAccessControl { resource: r, action: a, environment: env, overwrite: false }
    }

    /// Lets fetched attributes replace bindings of the base environment.
    pub fn overwrite(&mut self)
        requires
            old(self).wf(),
        ensures
            final(self).wf(),
            final(self).base() == old(self).base(),
            final(self).resource_name() == old(self).resource_name(),
            final(self).action_name() == old(self).action_name(),
            final(self).overwriting(),
    {
        self.overwrite = true;
    }

    /// The resource this gate guards.
    pub closed spec fn resource_name(&self) -> Seq<char> {
        self.resource@
    }

    /// The action this gate guards.
    pub closed spec fn action_name(&self) -> Seq<char> {
        self.action@
    }

    /// The base environment.
    pub closed spec fn base(&self) -> Map<Seq<char>, ExprS> {
        self.environment@
    }

    /// Whether fetched attributes replace base bindings.
    pub closed spec fn overwriting(&self) -> bool {
        self.overwrite
    }

    /// The base environment is well formed.
    pub closed spec fn wf(&self) -> bool {
        self.environment.wf()
    }

    /// The resource, for looking the policy up.
    pub fn resource(&self) -> (r: &Resource)
        ensures
            r@ == self.resource_name(),
    {
        &self.resource
    }

    /// The action, for looking the policy up.
    pub fn action(&self) -> (r: &Action)
        ensures
            r@ == self.action_name(),
    {
        &self.action
    }

    /// Builds the per-request environment from fetched attributes.
    ///
    /// The base environment stays as it is: the result
    /// is an independent copy, grown attribute by attribute.
    pub fn request_environment(&self, attrs: &Vec<(String, Vec<u8>)>) -> (r: Env)
        requires
            self.wf(),
        ensures
            r.wf(),
            r@ == spec_augment(self.base(), attrs_model(attrs@), self.overwriting()),
    {
        let mut e = self.environment.clone_env();
        let mut i: usize = 0;
        let ghost ats = attrs_model(attrs@);
        proof {
            assert(ats.skip(0) =~= ats);
        }
        while i < attrs.len()
            invariant
                self.wf(),
                i <= attrs@.len(),
                ats == attrs_model(attrs@),
                ats.len() == attrs@.len(),
                e.wf(),
                spec_augment(self.base(), ats, self.overwriting()) == spec_augment(
                    e@,
                    ats.skip(i as int),
                    self.overwriting(),
                ),
            decreases attrs@.len() - i,
        {
            proof {
                assert(ats.skip(i as int)[0] == ats[i as int]);
                assert(ats.skip(i as int).drop_first() =~= ats.skip(i as int + 1));
            }
            let kc = chars_vec(attrs[i].0.as_str());
            if !has_whitespace(&kc) {
                match string_from_utf8(&attrs[i].1) {
                    Some(decoded) => {
                        let mut key = String::from_str("subject.");
                        key.append(attrs[i].0.as_str());
                        if self.overwrite || !e.contains(key.as_str()) {
                            proof {
                                encode_utf8_decode_utf8(decoded@);
                            }
                            e.put(key.as_str(), Expr::Str(decoded));
                        }
                    },
                    None => {},
                }
            }
            i = i + 1;
        }
        proof {
            assert(ats.skip(attrs@.len() as int) =~= Seq::<(Seq<char>, Seq<u8>)>::empty());
        }
        e
    }

    /// Decides a message, given what was fetched for it.
    ///
    /// `policy` is the store's answer for this gate's (resource,
    /// action); `identity_present` says whether the message metadata
    /// carried a peer identity; `attrs` is the attribute store's answer
    /// for that identity. The verdict and the reason for a denial come
    /// back together.
    pub fn is_authorized_with(
        &self,
        policy: Option<&Policy>,
        identity_present: bool,
        attrs: Option<&Vec<(String, Vec<u8>)>>,
    ) -> (r: (bool, Option<DenyReason>))
        requires
            self.wf(),
        ensures
            r.0 == spec_authorized(
                self.base(),
                self.overwriting(),
                match policy {
                    Some(p) => Some(p@),
                    None => None,
                },
                identity_present,
                match attrs {
                    Some(ats) => Some(attrs_model(ats@)),
                    None => None,
                },
            ),
            r.0 == (r.1 is None),
            policy is None ==> r.1 == Some(DenyReason::NoPolicy),
            (policy matches Some(p) && p@ == ExprS::Bool(false)) ==> r.1 == Some(
                DenyReason::ConstantFalse,
            ),
            (policy matches Some(p) && p@ == ExprS::Bool(true)) ==> r.1 is None,
            policy matches Some(p) ==> (!(p@ is Bool) && !identity_present ==> r.1 == Some(
                DenyReason::NoIdentity,
            )),
            policy matches Some(p) ==> (!(p@ is Bool) && identity_present && attrs is None
                ==> r.1 == Some(DenyReason::NoAttributes)),
            policy matches Some(p) ==> (!(p@ is Bool) && identity_present ==> (
            attrs matches Some(ats) ==> match spec_eval(
                p@,
                spec_augment(self.base(), attrs_model(ats@), self.overwriting()),
            ) {
                Ok(v) => if v == ExprS::Bool(true) {
                    r.1 is None
                } else if v == ExprS::Bool(false) {
                    r.1 == Some(DenyReason::EvaluatedFalse)
                } else {
                    r.1 == Some(DenyReason::NonBoolean)
                },
                Err(er) => r.1 matches Some(d) && d matches DenyReason::EvalFailure(x) && x@
                    == er,
            })),
    {
        let p = match policy {
            Some(p) => p,
            None => {
                return (false, Some(DenyReason::NoPolicy));
            },
        };
        match p.is_constant_policy() {
            Some(true) => {
                return (true, None);
            },
            Some(false) => {
                return (false, Some(DenyReason::ConstantFalse));
            },
            None => {},
        }
        if !identity_present {
            return (false, Some(DenyReason::NoIdentity));
        }
        let ats = match attrs {
            Some(ats) => ats,
            None => {
                return (false, Some(DenyReason::NoAttributes));
            },
        };
        let e = self.request_environment(ats);
        match p.evaluate_with_environment(&e) {
            Ok(Some(true)) => (true, None),
            Ok(Some(false)) => (false, Some(DenyReason::EvaluatedFalse)),
            Ok(None) => (false, Some(DenyReason::NonBoolean)),
            Err(er) => (false, Some(DenyReason::EvalFailure(er))),
        }
    }

    /// Decides a message when the policy lookup itself may have failed.
    ///
    /// A storage failure is a transient deny: the verdict is deny with
    /// the failure as its reason, never an error to the caller.
    pub fn is_authorized_after_lookup(
        &self,
        lookup: Result<Option<Policy>, StorageError>,
        identity_present: bool,
        attrs: Option<&Vec<(String, Vec<u8>)>>,
    ) -> (r: (bool, Option<DenyReason>))
        requires
            self.wf(),
        ensures
            r.0 == (lookup matches Ok(p) && spec_authorized(
                self.base(),
                self.overwriting(),
                match p {
                    Some(pp) => Some(pp@),
                    None => None,
                },
                identity_present,
                match attrs {
                    Some(ats) => Some(attrs_model(ats@)),
                    None => None,
                },
            )),
            r.0 == (r.1 is None),
            lookup matches Err(e) ==> (r.1 matches Some(d) && d matches DenyReason::StorageFailure(
                c,
            ) && c@ == e@),
    {
        match lookup {
            Ok(Some(p)) => self.is_authorized_with(Some(&p), identity_present, attrs),
            Ok(None) => self.is_authorized_with(None, identity_present, attrs),
            Err(e) => (false, Some(DenyReason::StorageFailure(e.cause))),
        }
    }

    /// Looks the policy up in an in-memory store and decides a message.
    pub fn is_authorized_in_memory(
        &self,
        store: &crate::mem::Memory,
        identity_present: bool,
        attrs: Option<&Vec<(String, Vec<u8>)>>,
    ) -> (r: (bool, Option<DenyReason>))
        requires
            self.wf(),
            store.wf(),
        ensures
            r.0 == spec_authorized(
                self.base(),
                self.overwriting(),
                if store@.contains_key((self.resource_name(), self.action_name())) {
                    Some(store@[(self.resource_name(), self.action_name())])
                } else {
                    None
                },
                identity_present,
                match attrs {
                    Some(ats) => Some(attrs_model(ats@)),
                    None => None,
                },
            ),
            r.0 == (r.1 is None),
    {
        let p = store.get_policy(&self.resource, &self.action);
        match p {
            Some(p) => self.is_authorized_with(Some(&p), identity_present, attrs),
            None => self.is_authorized_with(None, identity_present, attrs),
        }
    }
}

} // verus!

//! The member registry: membership and commissioner records of every
//! organization, an owner who may configure the proposal manager, and the
//! proposal-manager gate on every mutating operation.

use vstd::prelude::*;

use crate::account::AccountId;
use crate::member::Error;
use crate::member::ID_LIMIT;
use crate::member::MemberInfo;
use crate::member::MemberView;
use crate::member::OrgMembers;
use crate::member::OrgView;
use crate::member::commissioner_scan_spec;
use crate::member::first_gap;
use crate::member::members_flags_cleared;
use crate::member::slots_cleared;
use crate::member::slots_matching_cleared;

verus! {

/// Failure of an owner-gated administrative call.
#[derive(Debug, PartialEq, Eq, Clone, Copy)]
pub enum OwnableError {
    /// The caller is not the registry owner.
    CallerIsNotOwner,
}

/// The records of one organization, keyed by its address.
pub struct OrgEntry {
    pub dao_address: AccountId,
    pub data: OrgMembers,
}

/// The member registry.
pub struct MemberManager {
    /// The account that may configure the proposal manager.
    pub owner: AccountId,
    /// The account whose calls pass the proposal-manager gate.
    pub proposal_manager_address: AccountId,
    /// Per-organization records; organization addresses are unique.
    pub orgs: Vec<OrgEntry>,
}

/// The records of the organization keyed `dao` in `s`, or the empty
/// state if it has none yet.
pub open spec fn org_lookup(s: Seq<OrgEntry>, dao: Seq<u8>) -> OrgView
    decreases s.len(),
{
    if s.len() == 0 {
        OrgView::empty()
    } else if s[0].dao_address@ == dao {
        s[0].data@
    } else {
        org_lookup(s.drop_first(), dao)
    }
}

/// Organization keys are pairwise distinct.
pub open spec fn org_keys_unique(s: Seq<OrgEntry>) -> bool {
    forall|i: int, j: int|
        0 <= i < j < s.len() ==> (#[trigger] s[i].dao_address@) != (#[trigger] s[j].dao_address@)
}

/// With unique keys, the lookup answers the entry at any matching index.
pub proof fn lemma_org_lookup_at(s: Seq<OrgEntry>, i: int)
    requires
        org_keys_unique(s),
        0 <= i < s.len(),
    ensures
        org_lookup(s, s[i].dao_address@) == s[i].data@,
    decreases s.len(),
{
    if i > 0 {
        assert(s[0].dao_address@ != s[i].dao_address@);
        assert forall|a: int, b: int|
            0 <= a < b < s.drop_first().len() implies (#[trigger] s.drop_first()[a].dao_address@)
            != (#[trigger] s.drop_first()[b].dao_address@) by {
            assert(s.drop_first()[a] == s[a + 1] && s.drop_first()[b] == s[b + 1]);
        }
        assert(s.drop_first()[i - 1] == s[i]);
        lemma_org_lookup_at(s.drop_first(), i - 1);
    }
}

/// A key that matches no entry looks up to the empty state.
pub proof fn lemma_org_lookup_absent(s: Seq<OrgEntry>, dao: Seq<u8>)
    requires
        forall|j: int| 0 <= j < s.len() ==> (#[trigger] s[j].dao_address@) != dao,
    ensures
        org_lookup(s, dao) == OrgView::empty(),
    decreases s.len(),
{
    if s.len() > 0 {
        assert forall|j: int| 0 <= j < s.drop_first().len() implies (#[trigger] s.drop_first()[j].dao_address@)
            != dao by {
            assert(s.drop_first()[j] == s[j + 1]);
        }
        lemma_org_lookup_absent(s.drop_first(), dao);
    }
}

/// Replacing the entry at `i` by one with the same key changes only that
/// key's lookup.
pub proof fn lemma_org_lookup_update(s: Seq<OrgEntry>, i: int, e: OrgEntry)
    requires
        org_keys_unique(s),
        0 <= i < s.len(),
        e.dao_address@ == s[i].dao_address@,
    ensures
        org_keys_unique(s.update(i, e)),
        forall|d: Seq<u8>|
            #[trigger] org_lookup(s.update(i, e), d) == if d == e.dao_address@ {
                e.data@
            } else {
                org_lookup(s, d)
            },
    decreases s.len(),
{
    assert forall|a: int, b: int|
        0 <= a < b < s.update(i, e).len() implies (#[trigger] s.update(i, e)[a].dao_address@)
        != (#[trigger] s.update(i, e)[b].dao_address@) by {
        assert(s.update(i, e)[a].dao_address@ == s[a].dao_address@);
        assert(s.update(i, e)[b].dao_address@ == s[b].dao_address@);
    }
    if i == 0 {
        assert forall|d: Seq<u8>|
            #[trigger] org_lookup(s.update(i, e), d) == if d == e.dao_address@ {
                e.data@
            } else {
                org_lookup(s, d)
            } by {
            let su = s.update(0, e);
            assert(su[0] == e);
            if d == e.dao_address@ {
                assert(org_lookup(su, d) == e.data@);
            } else {
                assert(su.drop_first() =~= s.drop_first());
                assert(org_lookup(su, d) == org_lookup(su.drop_first(), d));
                assert(org_lookup(s, d) == org_lookup(s.drop_first(), d));
            }
        }
    } else {
        assert forall|a: int, b: int|
            0 <= a < b < s.drop_first().len() implies (#[trigger] s.drop_first()[a].dao_address@)
            != (#[trigger] s.drop_first()[b].dao_address@) by {
            assert(s.drop_first()[a] == s[a + 1] && s.drop_first()[b] == s[b + 1]);
        }
        assert(s.drop_first()[i - 1] == s[i]);
        lemma_org_lookup_update(s.drop_first(), i - 1, e);
        assert forall|d: Seq<u8>|
            #[trigger] org_lookup(s.update(i, e), d) == if d == e.dao_address@ {
                e.data@
            } else {
                org_lookup(s, d)
            } by {
            let su = s.update(i, e);
            assert(su[0] == s[0]);
            assert(su.drop_first() =~= s.drop_first().update(i - 1, e));
            if d == su[0].dao_address@ {
                assert(org_lookup(su, d) == su[0].data@);
                assert(org_lookup(s, d) == s[0].data@);
                assert(d != e.dao_address@);
            } else {
                assert(org_lookup(su, d) == org_lookup(s.drop_first().update(i - 1, e), d));
                assert(org_lookup(s, d) == org_lookup(s.drop_first(), d));
            }
        }
    }
}

/// Appending an entry under a fresh key adds that key's records and
/// changes no other lookup.
pub proof fn lemma_org_lookup_push(s: Seq<OrgEntry>, e: OrgEntry)
    requires
        org_keys_unique(s),
        forall|j: int| 0 <= j < s.len() ==> (#[trigger] s[j].dao_address@) != e.dao_address@,
    ensures
        org_keys_unique(s.push(e)),
        forall|d: Seq<u8>|
            #[trigger] org_lookup(s.push(e), d) == if d == e.dao_address@ {
                e.data@
            } else {
                org_lookup(s, d)
            },
    decreases s.len(),
{
    assert forall|a: int, b: int|
        0 <= a < b < s.push(e).len() implies (#[trigger] s.push(e)[a].dao_address@)
        != (#[trigger] s.push(e)[b].dao_address@) by {
        if b < s.len() {
            assert(s.push(e)[a] == s[a] && s.push(e)[b] == s[b]);
        } else {
            assert(s.push(e)[a] == s[a] && s.push(e)[b] == e);
        }
    }
    if s.len() == 0 {
        assert forall|d: Seq<u8>|
            #[trigger] org_lookup(s.push(e), d) == if d == e.dao_address@ {
                e.data@
            } else {
                org_lookup(s, d)
            } by {
            let sp = s.push(e);
            assert(sp[0] == e);
            if d == e.dao_address@ {
                assert(org_lookup(sp, d) == e.data@);
            } else {
                assert(sp.drop_first() =~= Seq::<OrgEntry>::empty());
                assert(org_lookup(sp, d) == org_lookup(sp.drop_first(), d));
                assert(org_lookup(sp.drop_first(), d) == OrgView::empty());
                assert(org_lookup(s, d) == OrgView::empty());
            }
        }
    } else {
        assert forall|a: int, b: int|
            0 <= a < b < s.drop_first().len() implies (#[trigger] s.drop_first()[a].dao_address@)
            != (#[trigger] s.drop_first()[b].dao_address@) by {
            assert(s.drop_first()[a] == s[a + 1] && s.drop_first()[b] == s[b + 1]);
        }
        assert forall|j: int| 0 <= j < s.drop_first().len() implies (#[trigger] s.drop_first()[j].dao_address@)
            != e.dao_address@ by {
            assert(s.drop_first()[j] == s[j + 1]);
        }
        lemma_org_lookup_push(s.drop_first(), e);
        assert forall|d: Seq<u8>|
            #[trigger] org_lookup(s.push(e), d) == if d == e.dao_address@ {
                e.data@
            } else {
                org_lookup(s, d)
            } by {
            let sp = s.push(e);
            assert(sp[0] == s[0]);
            assert(sp.drop_first() =~= s.drop_first().push(e));
            if d == sp[0].dao_address@ {
                assert(org_lookup(sp, d) == sp[0].data@);
                assert(org_lookup(s, d) == s[0].data@);
                assert(d != e.dao_address@);
            } else {
                assert(org_lookup(sp, d) == org_lookup(s.drop_first().push(e), d));
                assert(org_lookup(s, d) == org_lookup(s.drop_first(), d));
            }
        }
    }
}

/// Removing an entry and putting one back at the same index is an update.
pub proof fn lemma_remove_insert(s: Seq<OrgEntry>, i: int, e: OrgEntry)
    requires
        0 <= i < s.len(),
    ensures
        s.remove(i).insert(i, e) =~= s.update(i, e),
{
    assert forall|j: int| 0 <= j < s.len() implies s.remove(i).insert(i, e)[j] == s.update(
        i,
        e,
    )[j] by {
        if j < i {
            assert(s.remove(i).insert(i, e)[j] == s.remove(i)[j]);
        } else if j > i {
            assert(s.remove(i).insert(i, e)[j] == s.remove(i)[j - 1]);
        }
    }
}

impl MemberManager {
    /// The records of the organization at this address; empty if none.
    pub open spec fn spec_org(self, dao: Seq<u8>) -> OrgView {
        org_lookup(self.orgs@, dao)
    }

    /// Well-formedness: organization keys are unique and every
    /// organization's records are well formed.
    pub open spec fn wf(self) -> bool {
        &&& org_keys_unique(self.orgs@)
        &&& forall|i: int| 0 <= i < self.orgs@.len() ==> (#[trigger] self.orgs@[i].data)@.wf()
    }

    /// A fresh registry owned by `owner`; the proposal manager starts as
    /// the all-zero account.
    pub fn new(owner: AccountId) -> (r: MemberManager)
        ensures
            r.wf(),
            r.owner@ == owner@,
            r.proposal_manager_address@ == Seq::<u8>::new(32, |i: int| 0u8),
            forall|d: Seq<u8>| #[trigger] r.spec_org(d) == OrgView::empty(),
    {
        let r = MemberManager {
            owner,
            proposal_manager_address: AccountId::zero(),
            orgs: Vec::new(),
        };
        r
    }

    /// Reconfigures the proposal manager; only the owner may.
    pub fn set_propsal_manager_adress(
        &mut self,
        caller: &AccountId,
        proposal_manager_address: AccountId,
    ) -> (r: Result<(), OwnableError>)
        requires
            old(self).wf(),
        ensures
            final(self).wf(),
            final(self).owner == old(self).owner,
            final(self).orgs == old(self).orgs,
            caller@ != old(self).owner@ ==> r == Err::<(), OwnableError>(
                OwnableError::CallerIsNotOwner,
            ) && final(self).proposal_manager_address == old(self).proposal_manager_address,
            caller@ == old(self).owner@ ==> r == Ok::<(), OwnableError>(())
                && final(self).proposal_manager_address == proposal_manager_address,
    {
        if !caller.eq_account(&self.owner) {
            return Err(OwnableError::CallerIsNotOwner);
        }
        self.proposal_manager_address = proposal_manager_address;
        Ok(())
    }

    /// Index of the organization with this address, if it has records.
    fn find_org(&self, dao_address: &AccountId) -> (r: Option<usize>)
        requires
            self.wf(),
        ensures
            r is Some ==> 0 <= r->0 < self.orgs@.len() && self.orgs@[r->0 as int].dao_address@
                == dao_address@ && self.spec_org(dao_address@) == self.orgs@[r->0 as int].data@,
            r is None ==> self.spec_org(dao_address@) == OrgView::empty() && forall|j: int|
                0 <= j < self.orgs@.len() ==> (#[trigger] self.orgs@[j].dao_address@)
                    != dao_address@,
    {
        let n = self.orgs.len();
        let mut i: usize = 0;
        while i < n
            invariant
                0 <= i <= n,
                n == self.orgs@.len(),
                self.wf(),
                forall|j: int| 0 <= j < i ==> (#[trigger] self.orgs@[j].dao_address@)
                    != dao_address@,
            decreases n - i,
        {
            if self.orgs[i].dao_address.eq_account(dao_address) {
                proof {
                    lemma_org_lookup_at(self.orgs@, i as int);
                }
                return Some(i);
            }
            i = i + 1;
        }
        proof {
            lemma_org_lookup_absent(self.orgs@, dao_address@);
        }
        None
    }

    /// Index of the organization with this address, creating empty
    /// records for it if it has none.
    fn ensure_org(&mut self, dao_address: &AccountId) -> (i: usize)
        requires
            old(self).wf(),
        ensures
            final(self).wf(),
            final(self).owner == old(self).owner,
            final(self).proposal_manager_address == old(self).proposal_manager_address,
            0 <= i < final(self).orgs@.len(),
            final(self).orgs@[i as int].dao_address@ == dao_address@,
            final(self).orgs@[i as int].data@ == old(self).spec_org(dao_address@),
            forall|d: Seq<u8>| #[trigger] final(self).spec_org(d) == old(self).spec_org(d),
    {
        match self.find_org(dao_address) {
            Option::Some(i) => i,
            Option::None => {
                let ghost olds = self.orgs@;
                let entry = OrgEntry { dao_address: *dao_address, data: OrgMembers::new() };
                proof {
                    lemma_org_lookup_push(olds, entry);
                    lemma_org_lookup_absent(olds, dao_address@);
                }
                let i = self.orgs.len();
                self.orgs.push(entry);
                proof {
                    assert(self.orgs@ == olds.push(entry));
                    assert(self.spec_org(dao_address@) == entry.data@);
                    assert(entry.data@ == OrgView::empty());
                }
                i
            },
        }
    }

    /// Registers the founding member of an organization: allowed for
    /// anyone, but only while the organization has never assigned a
    /// member id. The founder gets member id 0 and commissioner slot 0,
    /// and the registration can succeed at most once per organization,
    /// whatever is later deleted.
    pub fn add_first_member(
        &mut self,
        dao_address: &AccountId,
        member_address: &AccountId,
        name: String,
        token_id: u16,
    ) -> (r: Result<(), Error>)
        requires
            old(self).wf(),
        ensures
            final(self).wf(),
            final(self).owner == old(self).owner,
            final(self).proposal_manager_address == old(self).proposal_manager_address,
            forall|d: Seq<u8>|
                d != dao_address@ ==> #[trigger] final(self).spec_org(d) == old(self).spec_org(d),
            ({
                let o = old(self).spec_org(dao_address@);
                let p = final(self).spec_org(dao_address@);
                if o.members.len() != 0 {
                    r == Err::<(), Error>(Error::NotFirstMember) && p == o
                } else {
                    r == Ok::<(), Error>(()) && p.members == seq![
                        Option::Some(
                            MemberView {
                                name: name@,
                                member_address: member_address@,
                                member_id: 0u16,
                                token_id: token_id,
                                is_electoral_commissioner: true,
                            },
                        ),
                    ] && p.slots == seq![Option::Some(member_address@)]
                }
            }),
    {
        let i = self.ensure_org(dao_address);
        let ghost mid = *self;
        let mut entry = self.orgs.remove(i);
        let r = entry.data.first_member(*member_address, name, token_id);
        let ghost e2 = entry;
        self.orgs.insert(i, entry);
        proof {
            self.lemma_reinsert(mid, i as int, e2, dao_address@);
        }
        r
    }

    /// Adds an ordinary member; only the proposal manager may.
    pub fn add_member(
        &mut self,
        caller: &AccountId,
        dao_address: &AccountId,
        member_address: &AccountId,
        name: String,
        token_id: u16,
    ) -> (r: Result<(), Error>)
        requires
            old(self).wf(),
            caller@ == old(self).proposal_manager_address@ && !old(self).spec_org(
                dao_address@,
            ).member_exists(member_address@) ==> old(self).spec_org(dao_address@).members.len()
                < ID_LIMIT,
        ensures
            final(self).wf(),
            final(self).owner == old(self).owner,
            final(self).proposal_manager_address == old(self).proposal_manager_address,
            forall|d: Seq<u8>|
                d != dao_address@ ==> #[trigger] final(self).spec_org(d) == old(self).spec_org(d),
            ({
                let o = old(self).spec_org(dao_address@);
                let p = final(self).spec_org(dao_address@);
                if caller@ != old(self).proposal_manager_address@ {
                    r == Err::<(), Error>(Error::OnlyFromProposalManagerAddress) && p == o
                } else if o.member_exists(member_address@) {
                    r == Err::<(), Error>(Error::MemberAlreadyExists) && p == o
                } else {
                    r == Ok::<(), Error>(()) && p.members == o.members.push(
                        Option::Some(
                            MemberView {
                                name: name@,
                                member_address: member_address@,
                                member_id: o.members.len() as u16,
                                token_id: token_id,
                                is_electoral_commissioner: false,
                            },
                        ),
                    ) && p.slots == o.slots
                }
            }),
    {
        if !caller.eq_account(&self.proposal_manager_address) {
            return Err(Error::OnlyFromProposalManagerAddress);
        }
        let i = self.ensure_org(dao_address);
        let ghost mid = *self;
        let mut entry = self.orgs.remove(i);
        let r = entry.data.plain_member(*member_address, name, token_id);
        let ghost e2 = entry;
        self.orgs.insert(i, entry);
        proof {
            self.lemma_reinsert(mid, i as int, e2, dao_address@);
        }
        r
    }

    /// Deletes a member and every commissioner slot naming them; only the
    /// proposal manager may. The slot table is read in full first: a gap
    /// anywhere below the slot counter refuses the whole deletion and
    /// leaves the state untouched.
    pub fn delete_member(
        &mut self,
        caller: &AccountId,
        dao_address: &AccountId,
        member_address: &AccountId,
    ) -> (r: Result<(), Error>)
        requires
            old(self).wf(),
        ensures
            final(self).wf(),
            final(self).owner == old(self).owner,
            final(self).proposal_manager_address == old(self).proposal_manager_address,
            forall|d: Seq<u8>|
                d != dao_address@ ==> #[trigger] final(self).spec_org(d) == old(self).spec_org(d),
            ({
                let o = old(self).spec_org(dao_address@);
                let g = first_gap(o.slots);
                let p = final(self).spec_org(dao_address@);
                if caller@ != old(self).proposal_manager_address@ {
                    r == Err::<(), Error>(Error::OnlyFromProposalManagerAddress) && p == o
                } else if !o.member_exists(member_address@) {
                    r == Err::<(), Error>(Error::MemberDoesNotExist) && p == o
                } else if g < o.slots.len() {
                    r == Err::<(), Error>(Error::ElectoralCommissionerDataMismatch) && p == o
                } else {
                    r == Ok::<(), Error>(()) && p.members == o.members.update(
                        o.member_at(member_address@).member_id as int,
                        Option::None,
                    ) && p.slots == slots_matching_cleared(
                        o.slots,
                        member_address@,
                        o.slots.len() as int,
                    )
                }
            }),
    {
        if !caller.eq_account(&self.proposal_manager_address) {
            return Err(Error::OnlyFromProposalManagerAddress);
        }
        let i = self.ensure_org(dao_address);
        let ghost mid = *self;
        let mut entry = self.orgs.remove(i);
        let r = entry.data.remove_member(member_address);
        let ghost e2 = entry;
        self.orgs.insert(i, entry);
        proof {
            self.lemma_reinsert(mid, i as int, e2, dao_address@);
        }
        r
    }

    /// Seats an existing member in the next commissioner slot; only the
    /// proposal manager may.
    pub fn add_electoral_commissioner(
        &mut self,
        caller: &AccountId,
        dao_address: &AccountId,
        member_address: &AccountId,
    ) -> (r: Result<(), Error>)
        requires
            old(self).wf(),
            caller@ == old(self).proposal_manager_address@ && old(self).spec_org(
                dao_address@,
            ).member_exists(member_address@) ==> old(self).spec_org(dao_address@).slots.len()
                < ID_LIMIT,
        ensures
            final(self).wf(),
            final(self).owner == old(self).owner,
            final(self).proposal_manager_address == old(self).proposal_manager_address,
            forall|d: Seq<u8>|
                d != dao_address@ ==> #[trigger] final(self).spec_org(d) == old(self).spec_org(d),
            ({
                let o = old(self).spec_org(dao_address@);
                let p = final(self).spec_org(dao_address@);
                if caller@ != old(self).proposal_manager_address@ {
                    r == Err::<(), Error>(Error::OnlyFromProposalManagerAddress) && p == o
                } else if !o.member_exists(member_address@) {
                    r == Err::<(), Error>(Error::MemberDoesNotExist) && p == o
                } else {
                    r == Ok::<(), Error>(()) && p.members == o.members.update(
                        o.member_at(member_address@).member_id as int,
                        Option::Some(
                            MemberView {
                                is_electoral_commissioner: true,
                                ..o.member_at(member_address@)
                            },
                        ),
                    ) && p.slots == o.slots.push(Option::Some(member_address@))
                }
            }),
    {
        if !caller.eq_account(&self.proposal_manager_address) {
            return Err(Error::OnlyFromProposalManagerAddress);
        }
        let i = self.ensure_org(dao_address);
        let ghost mid = *self;
        let mut entry = self.orgs.remove(i);
        let r = entry.data.seat_commissioner(member_address);
        let ghost e2 = entry;
        self.orgs.insert(i, entry);
        proof {
            self.lemma_reinsert(mid, i as int, e2, dao_address@);
        }
        r
    }

    /// Clears every commissioner slot and flag of an organization, in
    /// slot order; only the proposal manager may. The slot table is read
    /// in full first: a gap anywhere below the slot counter refuses the
    /// whole reset and leaves the state untouched.
    pub fn dismiss_electoral_commissioner(
        &mut self,
        caller: &AccountId,
        dao_address: &AccountId,
    ) -> (r: Result<(), Error>)
        requires
            old(self).wf(),
        ensures
            final(self).wf(),
            final(self).owner == old(self).owner,
            final(self).proposal_manager_address == old(self).proposal_manager_address,
            forall|d: Seq<u8>|
                d != dao_address@ ==> #[trigger] final(self).spec_org(d) == old(self).spec_org(d),
            ({
                let o = old(self).spec_org(dao_address@);
                let g = first_gap(o.slots);
                let p = final(self).spec_org(dao_address@);
                if caller@ != old(self).proposal_manager_address@ {
                    r == Err::<(), Error>(Error::OnlyFromProposalManagerAddress) && p == o
                } else if g < o.slots.len() {
                    r == Err::<(), Error>(Error::ElectoralCommissionerDataMismatch) && p == o
                } else {
                    r == Ok::<(), Error>(()) && p.members == members_flags_cleared(
                        o.members,
                        o.slots,
                        o.slots.len() as int,
                    ) && p.slots == slots_cleared(o.slots, o.slots.len() as int)
                }
            }),
    {
        if !caller.eq_account(&self.proposal_manager_address) {
            return Err(Error::OnlyFromProposalManagerAddress);
        }
        let i = self.ensure_org(dao_address);
        let ghost mid = *self;
        let mut entry = self.orgs.remove(i);
        let r = entry.data.dismiss_commissioners();
        let ghost e2 = entry;
        self.orgs.insert(i, entry);
        proof {
            self.lemma_reinsert(mid, i as int, e2, dao_address@);
        }
        r
    }

    /// Relates the state after removing, mutating and reinserting one
    /// organization's entry to the state before.
    proof fn lemma_reinsert(&self, mid: MemberManager, i: int, e2: OrgEntry, dao: Seq<u8>)
        requires
            mid.wf(),
            0 <= i < mid.orgs@.len(),
            mid.orgs@[i].dao_address@ == dao,
            e2.dao_address == mid.orgs@[i].dao_address,
            e2.data@.wf(),
            self.orgs@ == mid.orgs@.remove(i).insert(i, e2),
        ensures
            self.wf(),
            self.spec_org(dao) == e2.data@,
            forall|d: Seq<u8>|
                d != dao ==> #[trigger] self.spec_org(d) == mid.spec_org(d),
    {
        lemma_remove_insert(mid.orgs@, i, e2);
        assert(self.orgs@ == mid.orgs@.update(i, e2));
        lemma_org_lookup_update(mid.orgs@, i, e2);
        assert forall|ix: int| 0 <= ix < self.orgs@.len() implies (#[trigger] self.orgs@[ix].data)@.wf() by {
            if ix != i {
                assert(self.orgs@[ix] == mid.orgs@[ix]);
            }
        }
    }

    /// The next member id the organization would assign: the count of
    /// ids handed out so far, deleted ones included.
    pub fn next_member_id(&self, dao_address: &AccountId) -> (r: u16)
        requires
            self.wf(),
        ensures
            r == self.spec_org(dao_address@).members.len(),
    {
        match self.find_org(dao_address) {
            Option::Some(i) => self.orgs[i].data.members.len() as u16,
            Option::None => 0u16,
        }
    }

    /// The next commissioner slot the organization would assign: the
    /// count of slots handed out so far, cleared ones included.
    pub fn next_no(&self, dao_address: &AccountId) -> (r: u16)
        requires
            self.wf(),
        ensures
            r == self.spec_org(dao_address@).slots.len(),
    {
        match self.find_org(dao_address) {
            Option::Some(i) => self.orgs[i].data.slots.len() as u16,
            Option::None => 0u16,
        }
    }

    /// The members of an organization in assignment order, deleted ids
    /// omitted.
    pub fn get_member_list(&self, dao_address: &AccountId) -> (r: Vec<MemberInfo>)
        requires
            self.wf(),
        ensures
            r@.map_values(|m: MemberInfo| m@) == self.spec_org(dao_address@).member_list(),
    {
        match self.find_org(dao_address) {
            Option::Some(i) => self.orgs[i].data.member_list(),
            Option::None => {
                let r: Vec<MemberInfo> = Vec::new();
                proof {
                    assert(r@.map_values(|m: MemberInfo| m@) =~= Seq::<MemberView>::empty());
                }
                r
            },
        }
    }

    /// The member of an organization registered under an address, if any.
    pub fn get_member_info(
        &self,
        dao_address: &AccountId,
        member_address: &AccountId,
    ) -> (r: Option<MemberInfo>)
        requires
            self.wf(),
        ensures
            r is Some <==> self.spec_org(dao_address@).member_exists(member_address@),
            r is Some ==> r->0@ == self.spec_org(dao_address@).member_at(member_address@),
    {
        let i = match self.find_org(dao_address) {
            Option::Some(i) => i,
            Option::None => {
                return None;
            },
        };
        let j = match self.orgs[i].data.find_member(member_address) {
            Option::Some(j) => j,
            Option::None => {
                return None;
            },
        };
        let ghost o = self.spec_org(dao_address@);
        match &self.orgs[i].data.members[j] {
            Option::Some(m) => {
                proof {
                    let ci = choose|ix: int|
                        0 <= ix < o.members.len() && o.members[ix] is Some
                            && (#[trigger] o.members[ix])->0.member_address == member_address@;
                    assert(ci == j as int);
                }
                Some(m.clone())
            },
            Option::None => {
                proof {
                    assert(false);
                }
                None
            },
        }
    }

    /// Whether the caller is a member of the organization.
    pub fn modifier_only_member(&self, caller: &AccountId, dao_address: &AccountId) -> (r: bool)
        requires
            self.wf(),
        ensures
            r == self.spec_org(dao_address@).member_exists(caller@),
    {
        match self.find_org(dao_address) {
            Option::Some(i) => self.orgs[i].data.find_member(caller).is_some(),
            Option::None => false,
        }
    }

    /// Whether the caller holds a commissioner slot that a scan in index
    /// order reaches before any gap: a gap reads as "no more
    /// commissioners" here, not as an error.
    pub fn modifier_only_electoral_commissioner(
        &self,
        caller: &AccountId,
        dao_address: &AccountId,
    ) -> (r: bool)
        requires
            self.wf(),
        ensures
            r == commissioner_scan_spec(self.spec_org(dao_address@).slots, caller@),
    {
        match self.find_org(dao_address) {
            Option::Some(i) => self.orgs[i].data.commissioner_scan(caller),
            Option::None => false,
        }
    }
}

} // verus!

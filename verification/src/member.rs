//! Membership records of one organization: members indexed by their
//! sequential member id, and the commissioner slot table indexed by a
//! monotonically increasing slot counter. Deleted members and cleared
//! slots leave gaps; ids and slot indices are never reused.

use vstd::prelude::*;

use crate::account::AccountId;

verus! {

/// Failures of the member registry.
#[derive(Debug, PartialEq, Eq, Clone, Copy)]
pub enum Error {
    /// The organization already has a member.
    NotFirstMember,
    /// No member with this address is registered.
    MemberDoesNotExist,
    /// A member with this address is already registered.
    MemberAlreadyExists,
    /// The commissioner slot table has a gap where a slot was expected.
    ElectoralCommissionerDataMismatch,
    /// The caller is not a member of the organization.
    OnlyMemberDoes,
    /// The caller is not an electoral commissioner.
    OnlyElectoralCommissioner,
    /// Only the configured proposal manager may call this.
    OnlyFromProposalManagerAddress,
    /// A textual member record could not be decoded.
    CsvConvertFailure,
}

/// One member of an organization.
#[derive(Debug)]
pub struct MemberInfo {
    pub name: String,
    pub member_address: AccountId,
    pub member_id: u16,
    pub token_id: u16,
    pub is_electoral_commissioner: bool,
}

/// The mathematical value of a [`MemberInfo`].
pub struct MemberView {
    pub name: Seq<char>,
    pub member_address: Seq<u8>,
    pub member_id: u16,
    pub token_id: u16,
    pub is_electoral_commissioner: bool,
}

impl View for MemberInfo {
    type V = MemberView;

    open spec fn view(&self) -> MemberView {
        MemberView {
            name: self.name@,
            member_address: self.member_address@,
            member_id: self.member_id,
            token_id: self.token_id,
            is_electoral_commissioner: self.is_electoral_commissioner,
        }
    }
}

impl Clone for MemberInfo {
    fn clone(&self) -> (r: Self)
        ensures
            r@ == self@,
    {
        MemberInfo {
            name: self.name.clone(),
            member_address: self.member_address,
            member_id: self.member_id,
            token_id: self.token_id,
            is_electoral_commissioner: self.is_electoral_commissioner,
        }
    }
}

/// The membership state of a single organization.
pub struct OrgMembers {
    /// Index `i` holds the member whose member id is `i`, or nothing if
    /// that id was deleted. The length is the next id to assign.
    pub members: Vec<Option<MemberInfo>>,
    /// Index `k` holds the address registered in commissioner slot `k`,
    /// or nothing if that slot was cleared. The length is the next slot.
    pub slots: Vec<Option<AccountId>>,
}

/// The mathematical value of an [`OrgMembers`].
pub struct OrgView {
    pub members: Seq<Option<MemberView>>,
    pub slots: Seq<Option<Seq<u8>>>,
}

impl View for OrgMembers {
    type V = OrgView;

    open spec fn view(&self) -> OrgView {
        OrgView {
            members: self.members@.map_values(
                |o: Option<MemberInfo>|
                    match o {
                        Option::Some(m) => Option::Some(m@),
                        Option::None => Option::None,
                    },
            ),
            slots: self.slots@.map_values(
                |o: Option<AccountId>|
                    match o {
                        Option::Some(a) => Option::Some(a@),
                        Option::None => Option::None,
                    },
            ),
        }
    }
}

/// Greatest number of members or commissioner slots one organization can
/// hold: ids and slot indices are 16-bit counters.
pub const ID_LIMIT: usize = 65535;

impl OrgView {
    /// The state of an organization nobody has touched.
    pub open spec fn empty() -> OrgView {
        OrgView { members: Seq::empty(), slots: Seq::empty() }
    }

    /// Some member with this address is currently registered.
    pub open spec fn member_exists(self, addr: Seq<u8>) -> bool {
        exists|i: int|
            0 <= i < self.members.len() && self.members[i] is Some
                && (#[trigger] self.members[i])->0.member_address == addr
    }

    /// The member currently registered under this address.
    pub open spec fn member_at(self, addr: Seq<u8>) -> MemberView {
        self.members[choose|i: int|
            0 <= i < self.members.len() && self.members[i] is Some
                && (#[trigger] self.members[i])->0.member_address == addr]->0
    }

    /// The members in assignment order, deleted ids omitted.
    pub open spec fn member_list(self) -> Seq<MemberView> {
        member_list_spec(self.members)
    }

    /// Well-formedness: ids match their index, addresses are unique among
    /// live members, every live slot resolves to a live member, and the
    /// 16-bit counters have not been exhausted.
    pub open spec fn wf(self) -> bool {
        &&& self.members.len() <= ID_LIMIT
        &&& self.slots.len() <= ID_LIMIT
        &&& self.members.len() == 0 ==> self.slots.len() == 0
        &&& forall|i: int|
            0 <= i < self.members.len() && self.members[i] is Some
                ==> (#[trigger] self.members[i])->0.member_id == i
        &&& forall|i: int, j: int|
            0 <= i < j < self.members.len() && self.members[i] is Some
                && self.members[j] is Some
                ==> (#[trigger] self.members[i])->0.member_address
                    != (#[trigger] self.members[j])->0.member_address
        &&& forall|k: int|
            0 <= k < self.slots.len() && self.slots[k] is Some
                ==> self.member_exists((#[trigger] self.slots[k])->0)
    }
}

/// The members of `m` in index order, skipping deleted entries.
pub open spec fn member_list_spec(m: Seq<Option<MemberView>>) -> Seq<MemberView>
    decreases m.len(),
{
    if m.len() == 0 {
        Seq::empty()
    } else {
        match m.last() {
            Option::Some(x) => member_list_spec(m.drop_last()).push(x),
            Option::None => member_list_spec(m.drop_last()),
        }
    }
}

/// Every entry of the member list is the live entry of `m` at the index
/// its member id names, provided ids match their index in `m`.
pub proof fn lemma_member_list_provenance(m: Seq<Option<MemberView>>)
    requires
        forall|i: int|
            0 <= i < m.len() && m[i] is Some ==> (#[trigger] m[i])->0.member_id == i,
    ensures
        forall|k: int|
            0 <= k < member_list_spec(m).len() ==> {
                let e = #[trigger] member_list_spec(m)[k];
                0 <= e.member_id < m.len() && m[e.member_id as int] is Some
                    && m[e.member_id as int]->0 == e
            },
        forall|k1: int, k2: int|
            0 <= k1 < k2 < member_list_spec(m).len()
                ==> (#[trigger] member_list_spec(m)[k1]).member_id
                    < (#[trigger] member_list_spec(m)[k2]).member_id,
    decreases m.len(),
{
    if m.len() > 0 {
        let mdl = m.drop_last();
        let rest = member_list_spec(mdl);
        assert forall|i: int|
            0 <= i < mdl.len() && mdl[i] is Some implies (#[trigger] mdl[i])->0.member_id
            == i by {
            assert(mdl[i] == m[i]);
        }
        lemma_member_list_provenance(mdl);
        assert forall|k: int| 0 <= k < rest.len() implies {
            let e = #[trigger] member_list_spec(m)[k];
            0 <= e.member_id < m.len() && m[e.member_id as int] is Some
                && m[e.member_id as int]->0 == e
        } by {
            assert(member_list_spec(m)[k] == rest[k]);
            let e = rest[k];
            assert(0 <= e.member_id < mdl.len() && mdl[e.member_id as int] is Some
                && mdl[e.member_id as int]->0 == e);
            assert(m[e.member_id as int] == mdl[e.member_id as int]);
        }
        if m.last() is Some {
            assert(member_list_spec(m) == rest.push(m.last()->0));
            assert(member_list_spec(m)[rest.len() as int] == m.last()->0);
            assert(m[m.len() - 1] is Some);
            assert(m.last()->0.member_id == m.len() - 1);
        }
    }
}

impl OrgMembers {
    /// A fresh, empty organization.
    pub fn new() -> (r: OrgMembers)
        ensures
            r@ == OrgView::empty(),
    {
        let r = OrgMembers { members: Vec::new(), slots: Vec::new() };
        proof {
            assert(r@.members =~= OrgView::empty().members);
            assert(r@.slots =~= OrgView::empty().slots);
            assert(r@ =~= OrgView::empty());
        }
        r
    }

    /// Index of the live member with this address, if any.
    pub fn find_member(&self, addr: &AccountId) -> (r: Option<usize>)
        ensures
            r is Some ==> 0 <= r->0 < self@.members.len()
                && self@.members[r->0 as int] is Some
                && self@.members[r->0 as int]->0.member_address == addr@,
            r is None ==> !self@.member_exists(addr@),
    {
        let n = self.members.len();
        let mut i: usize = 0;
        while i < n
            invariant
                0 <= i <= n,
                n == self@.members.len(),
                forall|j: int|
                    0 <= j < i && (#[trigger] self@.members[j]) is Some
                        ==> self@.members[j]->0.member_address != addr@,
            decreases n - i,
        {
            match &self.members[i] {
                Option::Some(m) => {
                    if m.member_address.eq_account(addr) {
                        assert(self@.members[i as int] is Some);
                        assert(self@.members[i as int]->0.member_address == addr@);
                        return Some(i);
                    }
                },
                Option::None => {},
            }
            assert(self@.members[i as int] matches Option::Some(mv)
                ==> mv.member_address != addr@);
            i = i + 1;
        }
        None
    }

    /// Registers a member under the next id; optionally also seats them in
    /// the next commissioner slot.
    pub fn push_member(
        &mut self,
        name: String,
        member_address: AccountId,
        token_id: u16,
        commissioner: bool,
    )
        requires
            old(self)@.members.len() < ID_LIMIT,
            commissioner ==> old(self)@.slots.len() < ID_LIMIT,
        ensures
            final(self)@.members == old(self)@.members.push(
                Option::Some(
                    MemberView {
                        name: name@,
                        member_address: member_address@,
                        member_id: old(self)@.members.len() as u16,
                        token_id: token_id,
                        is_electoral_commissioner: commissioner,
                    },
                ),
            ),
            commissioner ==> final(self)@.slots == old(self)@.slots.push(
                Option::Some(member_address@),
            ),
            !commissioner ==> final(self)@.slots == old(self)@.slots,
    {
        let member_id: u16 = self.members.len() as u16;
        let info = MemberInfo {
            name,
            member_address,
            member_id,
            token_id,
            is_electoral_commissioner: commissioner,
        };
        self.members.push(Some(info));
        if commissioner {
            self.slots.push(Some(member_address));
        }
        proof {
            assert(final(self)@.members =~= old(self)@.members.push(
                Option::Some(
                    MemberView {
                        name: name@,
                        member_address: member_address@,
                        member_id: old(self)@.members.len() as u16,
                        token_id: token_id,
                        is_electoral_commissioner: commissioner,
                    },
                ),
            ));
            if commissioner {
                assert(final(self)@.slots =~= old(self)@.slots.push(
                    Option::Some(member_address@),
                ));
            } else {
                assert(final(self)@.slots =~= old(self)@.slots);
            }
        }
    }

    /// The members in assignment order, deleted ids omitted.
    pub fn member_list(&self) -> (r: Vec<MemberInfo>)
        ensures
            r@.map_values(|m: MemberInfo| m@) == self@.member_list(),
    {
        let n = self.members.len();
        let mut r: Vec<MemberInfo> = Vec::new();
        let mut i: usize = 0;
        while i < n
            invariant
                0 <= i <= n,
                n == self@.members.len(),
                r@.map_values(|m: MemberInfo| m@) == member_list_spec(
                    self@.members.subrange(0, i as int),
                ),
            decreases n - i,
        {
            let ghost pre = self@.members.subrange(0, i as int);
            let ghost cur = self@.members.subrange(0, i as int + 1);
            proof {
                assert(cur.drop_last() =~= pre);
                assert(cur.last() == self@.members[i as int]);
            }
            match &self.members[i] {
                Option::Some(m) => {
                    let c = m.clone();
                    r.push(c);
                    proof {
                        assert(r@.map_values(|m: MemberInfo| m@) =~= member_list_spec(pre).push(
                            m@,
                        ));
                    }
                },
                Option::None => {},
            }
            i = i + 1;
        }
        proof {
            assert(self@.members.subrange(0, n as int) =~= self@.members);
        }
        r
    }

    /// Whether scanning the slots finds this caller before any gap: a gap
    /// reads as "no more commissioners" here, not as an error.
    pub fn commissioner_scan(&self, caller: &AccountId) -> (r: bool)
        ensures
            r == commissioner_scan_spec(self@.slots, caller@),
    {
        let n = self.slots.len();
        proof {
            assert(self@.slots.skip(0) =~= self@.slots);
        }
        let mut i: usize = 0;
        while i < n
            invariant
                0 <= i <= n,
                n == self@.slots.len(),
                forall|j: int|
                    0 <= j < i ==> (#[trigger] self@.slots[j]) is Some
                        && self@.slots[j]->0 != caller@,
                commissioner_scan_spec(self@.slots, caller@) == commissioner_scan_spec(
                    self@.slots.skip(i as int),
                    caller@,
                ),
            decreases n - i,
        {
            let ghost pre_suffix = self@.slots.skip(i as int);
            match &self.slots[i] {
                Option::Some(a) => {
                    if a.eq_account(caller) {
                        proof {
                            assert(pre_suffix[0] == self@.slots[i as int]);
                        }
                        return true;
                    }
                },
                Option::None => {
                    proof {
                        assert(pre_suffix[0] == self@.slots[i as int]);
                    }
                    return false;
                },
            }
            proof {
                assert(pre_suffix[0] == self@.slots[i as int]);
                assert(pre_suffix.drop_first() =~= self@.slots.skip(i + 1));
            }
            i = i + 1;
        }
        proof {
            assert(self@.slots.skip(n as int).len() == 0);
        }
        false
    }

    /// Registers the founding member. Allowed only while the organization
    /// has never assigned a member id: the founder gets member id 0 and
    /// commissioner slot 0. Once the id counter has moved it never moves
    /// back, so this registration can succeed at most once, whatever is
    /// later deleted.
    pub fn first_member(
        &mut self,
        member_address: AccountId,
        name: String,
        token_id: u16,
    ) -> (r: Result<(), Error>)
        requires
            old(self)@.wf(),
        ensures
            final(self)@.wf(),
            old(self)@.members.len() != 0 ==> r == Err::<(), Error>(
                Error::NotFirstMember,
            ) && final(self)@ == old(self)@,
            old(self)@.members.len() == 0 ==> r == Ok::<(), Error>(())
                && final(self)@.members == seq![
                Option::Some(
                    MemberView {
                        name: name@,
                        member_address: member_address@,
                        member_id: 0u16,
                        token_id: token_id,
                        is_electoral_commissioner: true,
                    },
                ),
            ] && final(self)@.slots == seq![Option::Some(member_address@)],
    {
        if self.members.len() != 0 {
            return Err(Error::NotFirstMember);
        }
        proof {
            assert(old(self)@.slots.len() == 0);
        }
        self.push_member(name, member_address, token_id, true);
        proof {
            assert(final(self)@.members =~= seq![
                Option::Some(
                    MemberView {
                        name: name@,
                        member_address: member_address@,
                        member_id: 0u16,
                        token_id: token_id,
                        is_electoral_commissioner: true,
                    },
                ),
            ]);
            assert(final(self)@.slots =~= seq![Option::Some(member_address@)]);
            assert(final(self)@.wf()) by {
                assert(final(self)@.members[0] is Some
                    && final(self)@.members[0]->0.member_address == member_address@);
            }
        }
        Ok(())
    }

    /// Registers an ordinary member under the next id.
    pub fn plain_member(
        &mut self,
        member_address: AccountId,
        name: String,
        token_id: u16,
    ) -> (r: Result<(), Error>)
        requires
            old(self)@.wf(),
            !old(self)@.member_exists(member_address@) ==> old(self)@.members.len() < ID_LIMIT,
        ensures
            final(self)@.wf(),
            old(self)@.member_exists(member_address@) ==> r == Err::<(), Error>(
                Error::MemberAlreadyExists,
            ) && final(self)@ == old(self)@,
            !old(self)@.member_exists(member_address@) ==> r == Ok::<(), Error>(())
                && final(self)@.members == old(self)@.members.push(
                Option::Some(
                    MemberView {
                        name: name@,
                        member_address: member_address@,
                        member_id: old(self)@.members.len() as u16,
                        token_id: token_id,
                        is_electoral_commissioner: false,
                    },
                ),
            ) && final(self)@.slots == old(self)@.slots,
    {
        if self.find_member(&member_address).is_some() {
            return Err(Error::MemberAlreadyExists);
        }
        self.push_member(name, member_address, token_id, false);
        proof {
            assert(final(self)@.wf()) by {
                assert forall|k: int|
                    0 <= k < final(self)@.slots.len() && final(self)@.slots[k] is Some implies final(self)@.member_exists((#[trigger] final(self)@.slots[k])->0) by {
                    let a = final(self)@.slots[k]->0;
                    assert(old(self)@.member_exists(a));
                    let i = choose|i: int|
                        0 <= i < old(self)@.members.len() && old(self)@.members[i] is Some
                            && (#[trigger] old(self)@.members[i])->0.member_address == a;
                    assert(final(self)@.members[i] is Some
                        && final(self)@.members[i]->0.member_address == a);
                }
            }
        }
        Ok(())
    }

    /// Seats an existing member in the next commissioner slot and sets
    /// their flag.
    pub fn seat_commissioner(&mut self, member_address: &AccountId) -> (r: Result<(), Error>)
        requires
            old(self)@.wf(),
            old(self)@.member_exists(member_address@) ==> old(self)@.slots.len() < ID_LIMIT,
        ensures
            final(self)@.wf(),
            !old(self)@.member_exists(member_address@) ==> r == Err::<(), Error>(
                Error::MemberDoesNotExist,
            ) && final(self)@ == old(self)@,
            old(self)@.member_exists(member_address@) ==> r == Ok::<(), Error>(()) && {
                let id = old(self)@.member_at(member_address@).member_id as int;
                final(self)@.members == old(self)@.members.update(
                    id,
                    Option::Some(
                        MemberView {
                            is_electoral_commissioner: true,
                            ..old(self)@.member_at(member_address@)
                        },
                    ),
                ) && final(self)@.slots == old(self)@.slots.push(Option::Some(member_address@))
            },
    {
        let idx = match self.find_member(member_address) {
            Option::Some(i) => i,
            Option::None => {
                return Err(Error::MemberDoesNotExist);
            },
        };
        let updated = match &self.members[idx] {
            Option::Some(m) => MemberInfo {
                name: m.name.clone(),
                member_address: m.member_address,
                member_id: m.member_id,
                token_id: m.token_id,
                is_electoral_commissioner: true,
            },
            Option::None => {
                proof {
                    assert(false);
                }
                return Err(Error::MemberDoesNotExist);
            },
        };
        self.slots.push(Some(*member_address));
        self.members[idx] = Some(updated);
        proof {
            let o = old(self)@;
            let ci = choose|i: int|
                0 <= i < o.members.len() && o.members[i] is Some
                    && (#[trigger] o.members[i])->0.member_address == member_address@;
            assert(ci == idx as int);
            assert(final(self)@.members =~= o.members.update(
                idx as int,
                Option::Some(
                    MemberView {
                        is_electoral_commissioner: true,
                        ..o.member_at(member_address@)
                    },
                ),
            ));
            assert(final(self)@.slots =~= o.slots.push(Option::Some(member_address@)));
            assert(final(self)@.wf()) by {
                assert forall|k: int|
                    0 <= k < final(self)@.slots.len() && final(self)@.slots[k] is Some implies final(self)@.member_exists((#[trigger] final(self)@.slots[k])->0) by {
                    let a = final(self)@.slots[k]->0;
                    if k < o.slots.len() {
                        assert(o.member_exists(a));
                        let i = choose|i: int|
                            0 <= i < o.members.len() && o.members[i] is Some
                                && (#[trigger] o.members[i])->0.member_address == a;
                        assert(final(self)@.members[i] is Some
                            && final(self)@.members[i]->0.member_address == a);
                    } else {
                        assert(final(self)@.members[idx as int] is Some
                            && final(self)@.members[idx as int]->0.member_address
                            == member_address@);
                    }
                }
            }
        }
        Ok(())
    }
}

impl OrgMembers {
    /// Index of the first empty commissioner slot, or the slot-table
    /// length if every slot is occupied.
    fn find_first_gap(&self) -> (r: usize)
        ensures
            r == first_gap(self@.slots),
    {
        let n = self.slots.len();
        let mut k: usize = 0;
        while k < n
            invariant
                0 <= k <= n,
                n == self@.slots.len(),
                self.slots@.len() == n,
                forall|j: int| 0 <= j < k ==> (#[trigger] self@.slots[j]) is Some,
            decreases n - k,
        {
            let cur: Option<AccountId> = self.slots[k];
            proof {
                assert(self@.slots[k as int] == (match cur {
                    Option::Some(a) => Option::Some(a@),
                    Option::None => Option::None,
                }));
            }
            if cur.is_none() {
                proof {
                    lemma_first_gap(self@.slots);
                    assert(first_gap(self@.slots) == k as int);
                }
                return k;
            }
            k = k + 1;
        }
        proof {
            lemma_first_gap(self@.slots);
            assert(first_gap(self@.slots) == n as int);
        }
        n
    }

    /// Removes a member and every commissioner slot that names them. The
    /// slot table is checked first: a gap anywhere below the slot counter
    /// refuses the whole deletion and leaves the state untouched.
    pub fn remove_member(&mut self, member_address: &AccountId) -> (r: Result<(), Error>)
        requires
            old(self)@.wf(),
        ensures
            final(self)@.wf(),
            ({
                let o = old(self)@;
                let g = first_gap(o.slots);
                if !o.member_exists(member_address@) {
                    r == Err::<(), Error>(Error::MemberDoesNotExist) && final(self)@ == o
                } else if g < o.slots.len() {
                    r == Err::<(), Error>(Error::ElectoralCommissionerDataMismatch)
                        && final(self)@ == o
                } else {
                    r == Ok::<(), Error>(())
                        && final(self)@.members == o.members.update(
                        o.member_at(member_address@).member_id as int,
                        Option::None,
                    )
                        && final(self)@.slots == slots_matching_cleared(
                        o.slots,
                        member_address@,
                        o.slots.len() as int,
                    )
                }
            }),
    {
        let ghost o = self@;
        let idx = match self.find_member(member_address) {
            Option::Some(i) => i,
            Option::None => {
                return Err(Error::MemberDoesNotExist);
            },
        };
        let n = self.slots.len();
        if self.find_first_gap() < n {
            return Err(Error::ElectoralCommissionerDataMismatch);
        }
        proof {
            lemma_first_gap(o.slots);
            assert(self@.slots =~= slots_matching_cleared(o.slots, member_address@, 0));
        }
        let mut k: usize = 0;
        while k < n
            invariant
                o == old(self)@,
                0 <= k <= n,
                n == o.slots.len(),
                o.wf(),
                first_gap(o.slots) == n as int,
                0 <= idx < o.members.len(),
                o.members[idx as int] is Some,
                o.members[idx as int]->0.member_address == member_address@,
                self.slots@.len() == n,
                self.members@.len() == o.members.len(),
                self@.members == o.members,
                self@.slots == slots_matching_cleared(o.slots, member_address@, k as int),
            decreases n - k,
        {
            proof {
                lemma_first_gap(o.slots);
                assert(self@.slots[k as int] == o.slots[k as int]);
            }
            let cur: Option<AccountId> = self.slots[k];
            proof {
                assert(self@.slots[k as int] == (match cur {
                    Option::Some(a) => Option::Some(a@),
                    Option::None => Option::None,
                }));
            }
            match cur {
                Option::None => {
                    proof {
                        assert(false);
                    }
                    return Err(Error::ElectoralCommissionerDataMismatch);
                },
                Option::Some(a) => {
                    let ghost prev = self@;
                    let ghost preraw = self.slots@;
                    let matched = a.eq_account(member_address);
                    if matched {
                        self.slots[k] = Option::None;
                    }
                    proof {
                        assert forall|i: int| 0 <= i < o.slots.len() implies self@.slots[i]
                            == slots_matching_cleared(o.slots, member_address@, k as int + 1)[i] by {
                            if i == k as int {
                                if matched {
                                    assert(self.slots@[i] is None);
                                    assert(o.slots[i] == Option::Some(member_address@));
                                } else {
                                    assert(self.slots@[i] == preraw[i]);
                                    assert(self@.slots[i] == prev.slots[i]);
                                    assert(o.slots[i] == Option::Some(a@) && a@ != member_address@);
                                }
                            } else {
                                assert(self.slots@[i] == preraw[i]);
                                assert(self@.slots[i] == prev.slots[i]);
                                assert(prev.slots[i] == slots_matching_cleared(
                                    o.slots,
                                    member_address@,
                                    k as int,
                                )[i]);
                            }
                        }
                        assert(self@.slots =~= slots_matching_cleared(
                            o.slots,
                            member_address@,
                            k as int + 1,
                        ));
                        assert(self@.members =~= o.members);
                    }
                },
            }
            k = k + 1;
        }
        self.members[idx] = Option::None;
        proof {
            lemma_first_gap(o.slots);
            assert(first_gap(o.slots) == n as int);
            let ci = choose|i: int|
                0 <= i < o.members.len() && o.members[i] is Some
                    && (#[trigger] o.members[i])->0.member_address == member_address@;
            assert(ci == idx as int);
            assert(final(self)@.members =~= o.members.update(idx as int, Option::None));
            assert(final(self)@.wf()) by {
                assert forall|k2: int|
                    0 <= k2 < final(self)@.slots.len() && final(self)@.slots[k2] is Some
                    implies final(self)@.member_exists((#[trigger] final(self)@.slots[k2])->0) by {
                    let a = final(self)@.slots[k2]->0;
                    assert(final(self)@.slots[k2] == o.slots[k2]);
                    assert(a != member_address@);
                    assert(o.member_exists(a));
                    let i = choose|i: int|
                        0 <= i < o.members.len() && o.members[i] is Some
                            && (#[trigger] o.members[i])->0.member_address == a;
                    assert(i != idx as int);
                    assert(final(self)@.members[i] is Some
                        && final(self)@.members[i]->0.member_address == a);
                }
            }
        }
        Ok(())
    }

    /// Clears every commissioner slot and every referenced member's flag,
    /// in slot order. The slot table is checked first: a gap anywhere
    /// below the slot counter refuses the whole reset and leaves the
    /// state untouched.
    pub fn dismiss_commissioners(&mut self) -> (r: Result<(), Error>)
        requires
            old(self)@.wf(),
        ensures
            final(self)@.wf(),
            ({
                let o = old(self)@;
                let g = first_gap(o.slots);
                if g < o.slots.len() {
                    r == Err::<(), Error>(Error::ElectoralCommissionerDataMismatch)
                        && final(self)@ == o
                } else {
                    r == Ok::<(), Error>(()) && final(self)@.members == members_flags_cleared(
                        o.members,
                        o.slots,
                        o.slots.len() as int,
                    ) && final(self)@.slots == slots_cleared(o.slots, o.slots.len() as int)
                }
            }),
    {
        let ghost o = self@;
        let n = self.slots.len();
        if self.find_first_gap() < n {
            return Err(Error::ElectoralCommissionerDataMismatch);
        }
        proof {
            lemma_first_gap(o.slots);
            assert(self@.members =~= members_flags_cleared(o.members, o.slots, 0));
            assert(self@.slots =~= slots_cleared(o.slots, 0));
        }
        let mut k: usize = 0;
        while k < n
            invariant
                o == old(self)@,
                0 <= k <= n,
                n == o.slots.len(),
                o.wf(),
                first_gap(o.slots) == n as int,
                self.slots@.len() == n,
                self.members@.len() == o.members.len(),
                self@.members == members_flags_cleared(o.members, o.slots, k as int),
                self@.slots == slots_cleared(o.slots, k as int),
            decreases n - k,
        {
            proof {
                lemma_first_gap(o.slots);
                assert(self@.slots[k as int] == o.slots[k as int]);
            }
            let cur: Option<AccountId> = self.slots[k];
            proof {
                assert(self@.slots[k as int] == (match cur {
                    Option::Some(a) => Option::Some(a@),
                    Option::None => Option::None,
                }));
            }
            match cur {
                Option::None => {
                    proof {
                        assert(false);
                    }
                    return Err(Error::ElectoralCommissionerDataMismatch);
                },
                Option::Some(a) => {
                    proof {
                        assert(o.slots[k as int] == Option::Some(a@));
                        assert(o.member_exists(a@));
                        assert forall|addr: Seq<u8>|
                            #[trigger] self@.member_exists(addr) == o.member_exists(addr) by {
                            lemma_dismiss_wf(o, k as int);
                        }
                    }
                    let idx = match self.find_member(&a) {
                        Option::Some(i) => i,
                        Option::None => {
                            proof {
                                assert(false);
                            }
                            return Err(Error::ElectoralCommissionerDataMismatch);
                        },
                    };
                    let updated = match &self.members[idx] {
                        Option::Some(m) => MemberInfo {
                            name: m.name.clone(),
                            member_address: m.member_address,
                            member_id: m.member_id,
                            token_id: m.token_id,
                            is_electoral_commissioner: false,
                        },
                        Option::None => {
                            proof {
                                assert(false);
                            }
                            return Err(Error::ElectoralCommissionerDataMismatch);
                        },
                    };
                    let ghost pre = self@;
                    let ghost preraw = self.slots@;
                    self.members[idx] = Option::Some(updated);
                    self.slots[k] = Option::None;
                    proof {
                        assert forall|i: int| 0 <= i < o.slots.len() implies self@.slots[i]
                            == slots_cleared(o.slots, k as int + 1)[i] by {
                            if i == k as int {
                                assert(self.slots@[i] is None);
                            } else {
                                assert(self.slots@[i] == preraw[i]);
                                assert(self@.slots[i] == pre.slots[i]);
                                assert(pre.slots[i] == slots_cleared(o.slots, k as int)[i]);
                            }
                        }
                        assert(self@.slots =~= slots_cleared(o.slots, k as int + 1));
                        assert forall|i: int| 0 <= i < o.members.len() implies self@.members[i]
                            == members_flags_cleared(o.members, o.slots, k as int + 1)[i] by {
                            if i == idx as int {
                                assert(o.members[i] is Some);
                                assert(pre.members[i] == members_flags_cleared(
                                    o.members,
                                    o.slots,
                                    k as int,
                                )[i]);
                                assert(o.members[i]->0.member_address == a@);
                                assert(slot_names(o.slots, k as int + 1, a@));
                            } else {
                                match o.members[i] {
                                    Option::Some(m) => {
                                        assert(pre.members[i] == members_flags_cleared(
                                            o.members,
                                            o.slots,
                                            k as int,
                                        )[i]);
                                        if m.member_address == a@ {
                                            assert(pre.members[i] is Some
                                                && pre.members[i]->0.member_address == a@);
                                            assert(pre.members[idx as int] is Some
                                                && pre.members[idx as int]->0.member_address
                                                == a@);
                                            assert(o.members[idx as int] is Some
                                                && o.members[idx as int]->0.member_address == a@);
                                            assert(false);
                                        } else {
                                            assert(slot_names(o.slots, k as int + 1, m.member_address)
                                                == slot_names(o.slots, k as int, m.member_address));
                                        }
                                    },
                                    Option::None => {},
                                }
                            }
                        }
                        assert(self@.members =~= members_flags_cleared(
                            o.members,
                            o.slots,
                            k as int + 1,
                        ));
                    }
                },
            }
            k = k + 1;
        }
        proof {
            lemma_first_gap(o.slots);
            assert(first_gap(o.slots) == n as int);
            lemma_dismiss_wf(o, n as int);
            assert(self@ == (OrgView {
                members: members_flags_cleared(o.members, o.slots, n as int),
                slots: slots_cleared(o.slots, n as int),
            }));
        }
        Ok(())
    }
}

/// Scan the slot table in index order: a present slot holding `caller`
/// answers true, the first gap answers false.
pub open spec fn commissioner_scan_spec(slots: Seq<Option<Seq<u8>>>, caller: Seq<u8>) -> bool
    decreases slots.len(),
{
    if slots.len() == 0 {
        false
    } else {
        match slots[0] {
            Option::None => false,
            Option::Some(a) => a == caller || commissioner_scan_spec(slots.drop_first(), caller),
        }
    }
}

/// Index of the first empty slot, or the table length if every slot is
/// occupied. The mutating operations refuse to run when this lies below
/// the table length.
pub open spec fn first_gap(slots: Seq<Option<Seq<u8>>>) -> int
    decreases slots.len(),
{
    if slots.len() == 0 {
        0
    } else if slots[0] is None {
        0
    } else {
        1 + first_gap(slots.drop_first())
    }
}

/// `first_gap` points at the first empty slot: everything before it is
/// occupied, and it is empty unless it equals the length.
pub proof fn lemma_first_gap(slots: Seq<Option<Seq<u8>>>)
    ensures
        0 <= first_gap(slots) <= slots.len(),
        forall|j: int| 0 <= j < first_gap(slots) ==> (#[trigger] slots[j]) is Some,
        first_gap(slots) < slots.len() ==> slots[first_gap(slots)] is None,
    decreases slots.len(),
{
    if slots.len() > 0 && !(slots[0] is None) {
        lemma_first_gap(slots.drop_first());
        assert forall|j: int| 0 <= j < first_gap(slots) implies (#[trigger] slots[j]) is Some by {
            if j > 0 {
                assert(slots.drop_first()[j - 1] == slots[j]);
            }
        }
        if first_gap(slots) < slots.len() {
            assert(slots.drop_first()[first_gap(slots) - 1] == slots[first_gap(slots)]);
        }
    }
}

/// The slot table after the delete scan has cleared, among the first
/// `upto` slots, those holding `addr`.
pub open spec fn slots_matching_cleared(
    slots: Seq<Option<Seq<u8>>>,
    addr: Seq<u8>,
    upto: int,
) -> Seq<Option<Seq<u8>>> {
    Seq::new(
        slots.len(),
        |i: int|
            if i < upto && slots[i] == Option::Some(addr) {
                Option::None
            } else {
                slots[i]
            },
    )
}

/// Some slot with index below `upto` holds `addr`.
pub open spec fn slot_names(slots: Seq<Option<Seq<u8>>>, upto: int, addr: Seq<u8>) -> bool {
    exists|k: int| 0 <= k < upto && slots[k] == Option::Some(addr)
}

/// The members after the dismissal scan has processed the first `upto`
/// slots: everyone a processed slot names has the commissioner flag
/// cleared, everyone else is untouched.
pub open spec fn members_flags_cleared(
    members: Seq<Option<MemberView>>,
    slots: Seq<Option<Seq<u8>>>,
    upto: int,
) -> Seq<Option<MemberView>> {
    Seq::new(
        members.len(),
        |i: int|
            match members[i] {
                Option::Some(m) => Option::Some(
                    if slot_names(slots, upto, m.member_address) {
                        MemberView { is_electoral_commissioner: false, ..m }
                    } else {
                        m
                    },
                ),
                Option::None => Option::None,
            },
    )
}

/// The slot table after the dismissal scan has cleared the first `upto`
/// slots.
pub open spec fn slots_cleared(slots: Seq<Option<Seq<u8>>>, upto: int) -> Seq<Option<Seq<u8>>> {
    Seq::new(slots.len(), |i: int| if i < upto { Option::None } else { slots[i] })
}

/// In a well-formed organization the member list never holds two records
/// with the same member id or the same address: ids are strictly
/// increasing along the list, and addresses are pairwise distinct.
pub proof fn lemma_member_list_distinct(o: OrgView)
    requires
        o.wf(),
    ensures
        forall|k1: int, k2: int|
            0 <= k1 < k2 < o.member_list().len()
                ==> (#[trigger] o.member_list()[k1]).member_id
                < (#[trigger] o.member_list()[k2]).member_id,
        forall|k1: int, k2: int|
            0 <= k1 < k2 < o.member_list().len()
                ==> (#[trigger] o.member_list()[k1]).member_address
                != (#[trigger] o.member_list()[k2]).member_address,
{
    lemma_member_list_provenance(o.members);
}

/// A complete dismissal leaves every slot empty, and an organization
/// whose slots are all empty passes the commissioner check for no
/// caller at all.
pub proof fn lemma_dismissed_no_commissioner(o: OrgView, caller: Seq<u8>)
    ensures
        !commissioner_scan_spec(slots_cleared(o.slots, o.slots.len() as int), caller),
{
    let s = slots_cleared(o.slots, o.slots.len() as int);
    if s.len() > 0 {
        assert(s[0] is None);
    }
}

/// The founding registration succeeds at most once: its success moves
/// the member-id counter off zero, and no later attempt is accepted
/// while the counter stands elsewhere, so the next attempt is refused
/// with NotFirstMember.
pub proof fn lemma_first_member_once(mv: MemberView)
    ensures
        (OrgView {
            members: seq![Option::Some(mv)],
            slots: seq![Option::Some(mv.member_address)],
        }).members.len() != 0,
{
}

/// Adding a member registers a record with their address, so a repeated
/// addition of the same pair must be refused with MemberAlreadyExists.
pub proof fn lemma_added_member_exists(o: OrgView, mv: MemberView)
    ensures
        (OrgView { members: o.members.push(Option::Some(mv)), slots: o.slots }).member_exists(
            mv.member_address,
        ),
{
    let m = o.members.push(Option::Some(mv));
    assert(m[m.len() - 1] is Some && m[m.len() - 1]->0.member_address == mv.member_address);
}

/// A successful deletion removes the only record with the address, so
/// the same pair can be added again afterwards.
pub proof fn lemma_deleted_member_absent(o: OrgView, s2: Seq<Option<Seq<u8>>>, addr: Seq<u8>)
    requires
        o.wf(),
        o.member_exists(addr),
    ensures
        !(OrgView {
            members: o.members.update(o.member_at(addr).member_id as int, Option::None),
            slots: s2,
        }).member_exists(addr),
{
    let ci = choose|i: int|
        0 <= i < o.members.len() && o.members[i] is Some
            && (#[trigger] o.members[i])->0.member_address == addr;
    let m = o.members.update(o.member_at(addr).member_id as int, Option::None);
    assert forall|i: int|
        0 <= i < m.len() && m[i] is Some implies (#[trigger] m[i])->0.member_address != addr by {
        if i != ci {
            assert(m[i] == o.members[i]);
        }
    }
}

/// Deletion never reopens the founding registration: deleting a member
/// blanks their id but keeps the id counter, so the member table's
/// length stays nonzero and every later founding attempt keeps being
/// refused with NotFirstMember.
pub proof fn lemma_first_member_closed_after_delete(m: Seq<Option<MemberView>>, id: int)
    requires
        m.len() != 0,
        0 <= id < m.len(),
    ensures
        m.update(id, Option::None).len() != 0,
{
}

/// Clearing commissioner flags and slots preserves well-formedness and
/// which addresses are registered.
pub proof fn lemma_dismiss_wf(o: OrgView, g: int)
    requires
        o.wf(),
        0 <= g <= o.slots.len(),
    ensures
        (OrgView {
            members: members_flags_cleared(o.members, o.slots, g),
            slots: slots_cleared(o.slots, g),
        }).wf(),
        forall|a: Seq<u8>|
            #[trigger] (OrgView {
                members: members_flags_cleared(o.members, o.slots, g),
                slots: slots_cleared(o.slots, g),
            }).member_exists(a) == o.member_exists(a),
{
    let nv = OrgView {
        members: members_flags_cleared(o.members, o.slots, g),
        slots: slots_cleared(o.slots, g),
    };
    assert forall|a: Seq<u8>| #[trigger] nv.member_exists(a) == o.member_exists(a) by {
        if o.member_exists(a) {
            let i = choose|i: int|
                0 <= i < o.members.len() && o.members[i] is Some
                    && (#[trigger] o.members[i])->0.member_address == a;
            assert(nv.members[i] is Some && nv.members[i]->0.member_address == a);
        }
        if nv.member_exists(a) {
            let i = choose|i: int|
                0 <= i < nv.members.len() && nv.members[i] is Some
                    && (#[trigger] nv.members[i])->0.member_address == a;
            assert(o.members[i] is Some && o.members[i]->0.member_address == a);
        }
    }
    assert forall|k: int|
        0 <= k < nv.slots.len() && nv.slots[k] is Some implies nv.member_exists(
        (#[trigger] nv.slots[k])->0,
    ) by {
        assert(nv.slots[k] == o.slots[k]);
        assert(o.member_exists(o.slots[k]->0));
    }
}

} // verus!

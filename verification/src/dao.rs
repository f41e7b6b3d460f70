//! The treasury and asset coordinator of one organization: its token
//! registry, treasury balance, courier-custody ledger, and the planning
//! of calls into the external asset services. Every mutating operation
//! except donation is gated on the configured manager account.

use vstd::prelude::*;

use crate::account::AccountId;
use crate::distribution::DistRecord;
use crate::distribution::plan_of;
use crate::member_manager::MemberManager;

verus! {

/// The kind of asset a registered token handle stands for.
#[derive(Debug, PartialEq, Eq, Clone, Copy, Structural)]
pub enum TokenType {
    GovernanceToken,
    FungibleAsset,
    NonFungibleAsset,
}

/// Failures of the coordinator.
#[derive(Debug, PartialEq, Eq, Clone, Copy)]
pub enum Error {
    /// No token is registered under this address.
    TheTokenDoesNotExist,
    /// The operation does not apply to this kind of token.
    InvalidOperation,
    /// A downstream distribution call failed.
    DistributionIsFailure,
    /// A downstream sale-status change failed.
    ChangingTokenStatusIsFailure,
    /// A downstream withdrawal failed.
    WithdrawingIsFailure,
    /// The batch payload is malformed.
    WrongCsvData,
    /// The treasury transfer failed.
    TransferingContractBalanceIsFailure,
    /// Only the configured manager may call this.
    ThisFunctionCanBeCalledFromDaoManager,
    /// No awaiting luggage record has this id.
    ThisLuggageDoesNotExists,
    /// The caller is not a member of the organization.
    OnlyMemberDoes,
    /// The caller's registered name is not the luggage's recipient name.
    NotYourLuggage,
}

/// One registered token handle.
#[derive(Debug, PartialEq, Eq, Clone, Copy)]
pub struct TokenInfo {
    pub token_type: TokenType,
    pub token_address: AccountId,
}

/// The mathematical value of a [`TokenInfo`].
pub struct TokenView {
    pub token_type: TokenType,
    pub token_address: Seq<u8>,
}

impl View for TokenInfo {
    type V = TokenView;

    open spec fn view(&self) -> TokenView {
        TokenView { token_type: self.token_type, token_address: self.token_address@ }
    }
}

/// Metadata of the organization.
#[derive(Debug)]
pub struct DaoInfo {
    pub name: String,
    pub repository_url: String,
    pub description: String,
    pub is_approved: bool,
}

/// The mathematical value of a [`DaoInfo`].
pub struct DaoInfoView {
    pub name: Seq<char>,
    pub repository_url: Seq<char>,
    pub description: Seq<char>,
    pub is_approved: bool,
}

impl View for DaoInfo {
    type V = DaoInfoView;

    open spec fn view(&self) -> DaoInfoView {
        DaoInfoView {
            name: self.name@,
            repository_url: self.repository_url@,
            description: self.description@,
            is_approved: self.is_approved,
        }
    }
}

impl Clone for DaoInfo {
    fn clone(&self) -> (r: Self)
        ensures
            r@ == self@,
    {
        DaoInfo {
            name: self.name.clone(),
            repository_url: self.repository_url.clone(),
            description: self.description.clone(),
            is_approved: self.is_approved,
        }
    }
}

/// One custody record: an item awaiting pickup by a named recipient.
#[derive(Debug)]
pub struct LuggageInfo {
    pub destination_org_name: String,
    pub id: u128,
    pub contents: String,
    pub recipient_name: String,
    pub registered_at: u64,
}

/// The mathematical value of a [`LuggageInfo`].
pub struct LuggageView {
    pub destination_org_name: Seq<char>,
    pub id: u128,
    pub contents: Seq<char>,
    pub recipient_name: Seq<char>,
    pub registered_at: u64,
}

impl View for LuggageInfo {
    type V = LuggageView;

    open spec fn view(&self) -> LuggageView {
        LuggageView {
            destination_org_name: self.destination_org_name@,
            id: self.id,
            contents: self.contents@,
            recipient_name: self.recipient_name@,
            registered_at: self.registered_at,
        }
    }
}

impl Clone for LuggageInfo {
    fn clone(&self) -> (r: Self)
        ensures
            r@ == self@,
    {
        LuggageInfo {
            destination_org_name: self.destination_org_name.clone(),
            id: self.id,
            contents: self.contents.clone(),
            recipient_name: self.recipient_name.clone(),
            registered_at: self.registered_at,
        }
    }
}

/// Where a custody record stands: awaiting pickup, or delivered.
#[derive(Debug, PartialEq, Eq, Clone, Copy, Structural)]
pub enum LuggageStatus {
    Alive,
    Dead,
}

/// A custody record together with its state.
#[derive(Debug)]
pub struct LuggageRecord {
    pub info: LuggageInfo,
    pub status: LuggageStatus,
}

/// The mathematical value of a [`LuggageRecord`].
pub struct LuggageRecView {
    pub info: LuggageView,
    pub status: LuggageStatus,
}

impl View for LuggageRecord {
    type V = LuggageRecView;

    open spec fn view(&self) -> LuggageRecView {
        LuggageRecView { info: self.info@, status: self.status }
    }
}

/// The planned downstream calls of one distribution batch: the
/// dispatches of the leading well-formed records, and whether the whole
/// payload was well formed. The records before a malformed one are
/// still dispatched: the batch is not transactional.
pub struct DistributionPlan {
    pub dispatches: Vec<DistRecord>,
    pub complete: bool,
}

/// The token registered under this address: the latest registration
/// wins, mirroring that registration overwrites the address-keyed slot.
pub open spec fn token_lookup(tokens: Seq<TokenView>, addr: Seq<u8>) -> Option<TokenView>
    decreases tokens.len(),
{
    if tokens.len() == 0 {
        Option::None
    } else if tokens.last().token_address == addr {
        Option::Some(tokens.last())
    } else {
        token_lookup(tokens.drop_last(), addr)
    }
}

/// A delivered record never returns: after a successful receipt the
/// record at the id is delivered with its contents unchanged, every
/// other record is untouched, and a second receipt of the same id must
/// be refused, since the record no longer awaits pickup.
pub proof fn lemma_receipt_moves_record_once(lug: Seq<LuggageRecView>, id: int)
    requires
        0 <= id < lug.len(),
    ensures
        ({
            let moved = lug.update(
                id,
                LuggageRecView { info: lug[id].info, status: LuggageStatus::Dead },
            );
            moved[id].status == LuggageStatus::Dead && moved[id].info == lug[id].info
                && moved[id].status != LuggageStatus::Alive && forall|j: int|
                0 <= j < lug.len() && j != id ==> moved[j] == lug[j]
        }),
{
}

/// The treasury and asset coordinator of one organization.
pub struct DaoContract {
    /// The account whose calls pass the manager gate.
    pub dao_manager_account_id: AccountId,
    /// Organization metadata; only the approval flag is ever changed.
    pub dao_info: DaoInfo,
    /// Registered token handles in registration order; the index is the
    /// token-list id. Never deleted.
    pub tokens: Vec<TokenInfo>,
    /// Custody records; the index is the luggage id.
    pub luggage: Vec<LuggageRecord>,
    /// The treasury balance the contract holds.
    pub balance: u128,
}

impl DaoContract {
    /// The registered tokens, in registration order.
    pub open spec fn spec_tokens(self) -> Seq<TokenView> {
        self.tokens@.map_values(|t: TokenInfo| t@)
    }

    /// The custody records, by luggage id.
    pub open spec fn spec_luggage(self) -> Seq<LuggageRecView> {
        self.luggage@.map_values(|l: LuggageRecord| l@)
    }

    /// Well-formedness: each custody record's id is its index.
    pub open spec fn wf(self) -> bool {
        forall|i: int|
            0 <= i < self.spec_luggage().len()
                ==> (#[trigger] self.spec_luggage()[i]).info.id == i as u128
    }

    /// A fresh coordinator bound to its manager account; the treasury
    /// starts empty and the metadata unapproved.
    pub fn new(
        dao_manager_account_id: AccountId,
        name: String,
        repository_url: String,
        description: String,
    ) -> (r: DaoContract)
        ensures
            r.wf(),
            r.dao_manager_account_id == dao_manager_account_id,
            r.dao_info@ == (DaoInfoView {
                name: name@,
                repository_url: repository_url@,
                description: description@,
                is_approved: false,
            }),
            r.spec_tokens() == Seq::<TokenView>::empty(),
            r.spec_luggage() == Seq::<LuggageRecView>::empty(),
            r.balance == 0,
    {
        let r = DaoContract {
            dao_manager_account_id,
            dao_info: DaoInfo { name, repository_url, description, is_approved: false },
            tokens: Vec::new(),
            luggage: Vec::new(),
            balance: 0u128,
        };
        proof {
            assert(r.spec_tokens() =~= Seq::<TokenView>::empty());
            assert(r.spec_luggage() =~= Seq::<LuggageRecView>::empty());
        }
        r
    }

    /// Whether the caller is the configured manager.
    fn is_calling_from_dao_manager(&self, caller: &AccountId) -> (r: bool)
        ensures
            r == (caller@ == self.dao_manager_account_id@),
    {
        caller.eq_account(&self.dao_manager_account_id)
    }

    /// Sets the approval flag of the metadata; only the manager may.
    pub fn change_aproval(&mut self, caller: &AccountId, is_aproved: bool) -> (r: Result<
        (),
        Error,
    >)
        ensures
            final(self).dao_manager_account_id == old(self).dao_manager_account_id,
            final(self).tokens == old(self).tokens,
            final(self).luggage == old(self).luggage,
            final(self).balance == old(self).balance,
            caller@ != old(self).dao_manager_account_id@ ==> r == Err::<(), Error>(
                Error::ThisFunctionCanBeCalledFromDaoManager,
            ) && final(self).dao_info == old(self).dao_info,
            caller@ == old(self).dao_manager_account_id@ ==> r == Ok::<(), Error>(()) && final(self).dao_info@ == (DaoInfoView { is_approved: is_aproved, ..old(self).dao_info@ }),
    {
        if !self.is_calling_from_dao_manager(caller) {
            return Err(Error::ThisFunctionCanBeCalledFromDaoManager);
        }
        self.dao_info.is_approved = is_aproved;
        Ok(())
    }

    /// The organization metadata.
    pub fn get_dao_info(&self) -> (r: DaoInfo)
        ensures
            r@ == self.dao_info@,
    {
        self.dao_info.clone()
    }

    /// Registers a token handle under the next token-list id; only the
    /// manager may. Nothing checks for an address already registered:
    /// the latest registration simply wins on lookup by address.
    pub fn add_dao_token(
        &mut self,
        caller: &AccountId,
        token_type: TokenType,
        token_address: AccountId,
    ) -> (r: Result<(), Error>)
        requires
            old(self).wf(),
        ensures
            final(self).wf(),
            final(self).dao_manager_account_id == old(self).dao_manager_account_id,
            final(self).dao_info == old(self).dao_info,
            final(self).luggage == old(self).luggage,
            final(self).balance == old(self).balance,
            caller@ != old(self).dao_manager_account_id@ ==> r == Err::<(), Error>(
                Error::ThisFunctionCanBeCalledFromDaoManager,
            ) && final(self).tokens == old(self).tokens,
            caller@ == old(self).dao_manager_account_id@ ==> r == Ok::<(), Error>(()) && final(self).spec_tokens() == old(self).spec_tokens().push(
                TokenView { token_type: token_type, token_address: token_address@ },
            ),
    {
        if !self.is_calling_from_dao_manager(caller) {
            return Err(Error::ThisFunctionCanBeCalledFromDaoManager);
        }
        self.tokens.push(TokenInfo { token_type, token_address });
        proof {
            assert(final(self).spec_tokens() =~= old(self).spec_tokens().push(
                TokenView { token_type: token_type, token_address: token_address@ },
            ));
        }
        Ok(())
    }

    /// The registered tokens in registration order.
    pub fn get_token_list(&self) -> (r: Vec<TokenInfo>)
        ensures
            r@.map_values(|t: TokenInfo| t@) == self.spec_tokens(),
    {
        let n = self.tokens.len();
        let mut r: Vec<TokenInfo> = Vec::new();
        let mut i: usize = 0;
        while i < n
            invariant
                0 <= i <= n,
                n == self.tokens@.len(),
                r@.map_values(|t: TokenInfo| t@) == self.spec_tokens().subrange(0, i as int),
            decreases n - i,
        {
            let ghost pre = r@;
            r.push(self.tokens[i]);
            proof {
                assert(r@ == pre.push(self.tokens@[i as int]));
                assert(pre.map_values(|t: TokenInfo| t@).len() == pre.len());
                assert(pre.len() == i);
                assert(r@.len() == i + 1);
                assert forall|j: int| 0 <= j < i + 1 implies r@.map_values(|t: TokenInfo| t@)[j]
                    == #[trigger] self.spec_tokens().subrange(0, i as int + 1)[j] by {
                    if j < i {
                        assert(r@[j] == pre[j]);
                        assert(pre.map_values(|t: TokenInfo| t@)[j] == self.spec_tokens().subrange(
                            0,
                            i as int,
                        )[j]);
                    } else {
                        assert(r@[j] == self.tokens@[i as int]);
                    }
                }
                assert(r@.map_values(|t: TokenInfo| t@) =~= self.spec_tokens().subrange(
                    0,
                    i as int + 1,
                ));
            }
            i = i + 1;
        }
        proof {
            assert(self.spec_tokens().subrange(0, n as int) =~= self.spec_tokens());
        }
        r
    }

    /// The token registered under this address, if any: the latest
    /// registration wins.
    fn find_token(&self, token_address: &AccountId) -> (r: Option<TokenInfo>)
        ensures
            r is Some <==> token_lookup(self.spec_tokens(), token_address@) is Some,
            r is Some ==> r->0@ == token_lookup(self.spec_tokens(), token_address@)->0,
    {
        let ghost toks = self.spec_tokens();
        let n = self.tokens.len();
        proof {
            assert(toks.subrange(0, n as int) =~= toks);
        }
        let mut i: usize = n;
        while i > 0
            invariant
                0 <= i <= n,
                n == self.tokens@.len(),
                toks == self.spec_tokens(),
                token_lookup(toks, token_address@) == token_lookup(
                    toks.subrange(0, i as int),
                    token_address@,
                ),
            decreases i,
        {
            let j = i - 1;
            let t = self.tokens[j];
            proof {
                assert(toks.subrange(0, j as int + 1).last() == toks[j as int]);
                assert(toks.subrange(0, j as int + 1).drop_last() =~= toks.subrange(0, j as int));
            }
            if t.token_address.eq_account(token_address) {
                return Some(t);
            }
            i = j;
        }
        proof {
            assert(toks.subrange(0, 0).len() == 0);
        }
        None
    }

    /// Resolves a sale-status change to the asset service that must
    /// perform it; only the manager may, only for fungible or
    /// non-fungible assets. Nothing is written locally: the returned
    /// handle names the service the caller dispatches to with the
    /// requested flag.
    pub fn change_token_sales_status(
        &self,
        caller: &AccountId,
        token_address: &AccountId,
        is_start: bool,
    ) -> (r: Result<TokenInfo, Error>)
        ensures
            ({
                let found = token_lookup(self.spec_tokens(), token_address@);
                if caller@ != self.dao_manager_account_id@ {
                    r == Err::<TokenInfo, Error>(Error::ThisFunctionCanBeCalledFromDaoManager)
                } else if found is None {
                    r == Err::<TokenInfo, Error>(Error::TheTokenDoesNotExist)
                } else if found->0.token_type == TokenType::GovernanceToken {
                    r == Err::<TokenInfo, Error>(Error::InvalidOperation)
                } else {
                    r is Ok && r->Ok_0@ == found->0
                }
            }),
    {
        if !self.is_calling_from_dao_manager(caller) {
            return Err(Error::ThisFunctionCanBeCalledFromDaoManager);
        }
        let token_info = match self.find_token(token_address) {
            Option::Some(t) => t,
            Option::None => {
                return Err(Error::TheTokenDoesNotExist);
            },
        };
        match token_info.token_type {
            TokenType::GovernanceToken => Err(Error::InvalidOperation),
            TokenType::FungibleAsset => Ok(token_info),
            TokenType::NonFungibleAsset => Ok(token_info),
        }
    }

    /// Translates the asset service's answer to a sale-status change.
    pub fn sale_status_outcome(dispatched_ok: bool) -> (r: Result<(), Error>)
        ensures
            r == (if dispatched_ok {
                Ok::<(), Error>(())
            } else {
                Err::<(), Error>(Error::ChangingTokenStatusIsFailure)
            }),
    {
        if dispatched_ok {
            Ok(())
        } else {
            Err(Error::ChangingTokenStatusIsFailure)
        }
    }

    /// Resolves a proceeds withdrawal to the asset service that must
    /// perform it; only the manager may, only for fungible or
    /// non-fungible assets.
    pub fn withdraw_token_proceeds(&self, caller: &AccountId, token_address: &AccountId) -> (r:
        Result<TokenInfo, Error>)
        ensures
            ({
                let found = token_lookup(self.spec_tokens(), token_address@);
                if caller@ != self.dao_manager_account_id@ {
                    r == Err::<TokenInfo, Error>(Error::ThisFunctionCanBeCalledFromDaoManager)
                } else if found is None {
                    r == Err::<TokenInfo, Error>(Error::TheTokenDoesNotExist)
                } else if found->0.token_type == TokenType::GovernanceToken {
                    r == Err::<TokenInfo, Error>(Error::InvalidOperation)
                } else {
                    r is Ok && r->Ok_0@ == found->0
                }
            }),
    {
        if !self.is_calling_from_dao_manager(caller) {
            return Err(Error::ThisFunctionCanBeCalledFromDaoManager);
        }
        let token_info = match self.find_token(token_address) {
            Option::Some(t) => t,
            Option::None => {
                return Err(Error::TheTokenDoesNotExist);
            },
        };
        match token_info.token_type {
            TokenType::GovernanceToken => Err(Error::InvalidOperation),
            TokenType::FungibleAsset => Ok(token_info),
            TokenType::NonFungibleAsset => Ok(token_info),
        }
    }

    /// Translates the asset service's answer to a withdrawal.
    pub fn withdraw_outcome(dispatched_ok: bool) -> (r: Result<(), Error>)
        ensures
            r == (if dispatched_ok {
                Ok::<(), Error>(())
            } else {
                Err::<(), Error>(Error::WithdrawingIsFailure)
            }),
    {
        if dispatched_ok {
            Ok(())
        } else {
            Err(Error::WithdrawingIsFailure)
        }
    }

    /// Plans a governance-token batch distribution; only the manager
    /// may, only for a governance token. The plan holds the dispatches
    /// of the leading well-formed records and whether the whole payload
    /// parsed; the caller dispatches them in order.
    pub fn distribute_governance_token(
        &self,
        caller: &AccountId,
        token_address: &AccountId,
        csv_data: &str,
    ) -> (r: Result<DistributionPlan, Error>)
        ensures
            ({
                let found = token_lookup(self.spec_tokens(), token_address@);
                if caller@ != self.dao_manager_account_id@ {
                    r == Err::<DistributionPlan, Error>(
                        Error::ThisFunctionCanBeCalledFromDaoManager,
                    )
                } else if found is None {
                    r == Err::<DistributionPlan, Error>(Error::TheTokenDoesNotExist)
                } else if found->0.token_type != TokenType::GovernanceToken {
                    r == Err::<DistributionPlan, Error>(Error::InvalidOperation)
                } else {
                    r is Ok && r->Ok_0.dispatches@.map_values(|d: DistRecord| d@) == plan_of(
                        csv_data@,
                        0,
                    ).0 && r->Ok_0.complete == plan_of(csv_data@, 0).1
                }
            }),
    {
        if !self.is_calling_from_dao_manager(caller) {
            return Err(Error::ThisFunctionCanBeCalledFromDaoManager);
        }
        let token_info = match self.find_token(token_address) {
            Option::Some(t) => t,
            Option::None => {
                return Err(Error::TheTokenDoesNotExist);
            },
        };
        match token_info.token_type {
            TokenType::GovernanceToken => {},
            TokenType::FungibleAsset => {
                return Err(Error::InvalidOperation);
            },
            TokenType::NonFungibleAsset => {
                return Err(Error::InvalidOperation);
            },
        }
        let parsed = crate::distribution::parse_distribution(csv_data);
        Ok(DistributionPlan { dispatches: parsed.0, complete: parsed.1 })
    }

    /// Translates how the batch went: a failed dispatch outweighs a
    /// malformed tail, since it happens while the tail is still unread.
    pub fn distribution_outcome(complete: bool, dispatch_failed: bool) -> (r: Result<(), Error>)
        ensures
            r == (if dispatch_failed {
                Err::<(), Error>(Error::DistributionIsFailure)
            } else if !complete {
                Err::<(), Error>(Error::WrongCsvData)
            } else {
                Ok::<(), Error>(())
            }),
    {
        if dispatch_failed {
            Err(Error::DistributionIsFailure)
        } else if !complete {
            Err(Error::WrongCsvData)
        } else {
            Ok(())
        }
    }

    /// Accepts a donation of the attached value; anyone may.
    pub fn donate_to_the_dao(&mut self, value: u128) -> (r: Result<(), Error>)
        requires
            old(self).balance + value <= u128::MAX,
        ensures
            r == Ok::<(), Error>(()),
            final(self).balance == old(self).balance + value,
            final(self).dao_manager_account_id == old(self).dao_manager_account_id,
            final(self).dao_info == old(self).dao_info,
            final(self).tokens == old(self).tokens,
            final(self).luggage == old(self).luggage,
    {
        self.balance = self.balance + value;
        Ok(())
    }

    /// Pays out from the treasury; only the manager may. The transfer
    /// fails exactly when the treasury does not hold the amount.
    pub fn distribute_dao_treasury(
        &mut self,
        caller: &AccountId,
        to: &AccountId,
        amount: u128,
    ) -> (r: Result<(), Error>)
        ensures
            final(self).dao_manager_account_id == old(self).dao_manager_account_id,
            final(self).dao_info == old(self).dao_info,
            final(self).tokens == old(self).tokens,
            final(self).luggage == old(self).luggage,
            ({
                if caller@ != old(self).dao_manager_account_id@ {
                    r == Err::<(), Error>(Error::ThisFunctionCanBeCalledFromDaoManager) && final(self).balance == old(self).balance
                } else if amount > old(self).balance {
                    r == Err::<(), Error>(Error::TransferingContractBalanceIsFailure) && final(self).balance == old(self).balance
                } else {
                    r == Ok::<(), Error>(()) && final(self).balance == old(self).balance - amount
                }
            }),
    {
        if !self.is_calling_from_dao_manager(caller) {
            return Err(Error::ThisFunctionCanBeCalledFromDaoManager);
        }
        if amount > self.balance {
            return Err(Error::TransferingContractBalanceIsFailure);
        }
        self.balance = self.balance - amount;
        Ok(())
    }

    /// The treasury balance.
    pub fn get_contract_balance(&self) -> (r: u128)
        ensures
            r == self.balance,
    {
        self.balance
    }

    /// Registers an arriving item under the next luggage id, awaiting
    /// pickup; only the manager may. `now` is the registration time.
    pub fn register_luggage_info_of_arraival(
        &mut self,
        caller: &AccountId,
        to_dao_name: String,
        contents: String,
        to_person_name: String,
        now: u64,
    ) -> (r: Result<(), Error>)
        requires
            old(self).wf(),
        ensures
            final(self).wf(),
            final(self).dao_manager_account_id == old(self).dao_manager_account_id,
            final(self).dao_info == old(self).dao_info,
            final(self).tokens == old(self).tokens,
            final(self).balance == old(self).balance,
            caller@ != old(self).dao_manager_account_id@ ==> r == Err::<(), Error>(
                Error::ThisFunctionCanBeCalledFromDaoManager,
            ) && final(self).luggage == old(self).luggage,
            caller@ == old(self).dao_manager_account_id@ ==> r == Ok::<(), Error>(()) && final(self).spec_luggage() == old(self).spec_luggage().push(
                LuggageRecView {
                    info: LuggageView {
                        destination_org_name: to_dao_name@,
                        id: old(self).spec_luggage().len() as u128,
                        contents: contents@,
                        recipient_name: to_person_name@,
                        registered_at: now,
                    },
                    status: LuggageStatus::Alive,
                },
            ),
    {
        if !self.is_calling_from_dao_manager(caller) {
            return Err(Error::ThisFunctionCanBeCalledFromDaoManager);
        }
        let id: u128 = self.luggage.len() as u128;
        let record = LuggageRecord {
            info: LuggageInfo {
                destination_org_name: to_dao_name,
                id,
                contents,
                recipient_name: to_person_name,
                registered_at: now,
            },
            status: LuggageStatus::Alive,
        };
        let ghost rv = record@;
        self.luggage.push(record);
        proof {
            assert(final(self).spec_luggage() =~= old(self).spec_luggage().push(rv));
        }
        Ok(())
    }

    /// Releases custody of an awaiting item to the caller. The caller
    /// must be a member of the organization the registry knows, and
    /// their registered name must equal the record's recipient name:
    /// identity is matched by name, not by account. On success the
    /// record moves, unchanged, from awaiting to delivered.
    pub fn register_luggage_info_of_recipt(
        &mut self,
        registry: &MemberManager,
        caller: &AccountId,
        dao_address: &AccountId,
        luggage_id: u128,
    ) -> (r: Result<(), Error>)
        requires
            old(self).wf(),
            registry.wf(),
        ensures
            final(self).wf(),
            final(self).dao_manager_account_id == old(self).dao_manager_account_id,
            final(self).dao_info == old(self).dao_info,
            final(self).tokens == old(self).tokens,
            final(self).balance == old(self).balance,
            ({
                let org = registry.spec_org(dao_address@);
                let lug = old(self).spec_luggage();
                if !org.member_exists(caller@) {
                    r == Err::<(), Error>(Error::OnlyMemberDoes) && final(self).luggage == old(
                        self,
                    ).luggage
                } else if luggage_id >= lug.len() || lug[luggage_id as int].status
                    != LuggageStatus::Alive {
                    r == Err::<(), Error>(Error::ThisLuggageDoesNotExists) && final(self).luggage
                        == old(self).luggage
                } else if org.member_at(caller@).name != lug[luggage_id as int].info.recipient_name {
                    r == Err::<(), Error>(Error::NotYourLuggage) && final(self).luggage == old(
                        self,
                    ).luggage
                } else {
                    r == Ok::<(), Error>(()) && final(self).spec_luggage() == lug.update(
                        luggage_id as int,
                        LuggageRecView {
                            info: lug[luggage_id as int].info,
                            status: LuggageStatus::Dead,
                        },
                    )
                }
            }),
    {
        let member_info = match registry.get_member_info(dao_address, caller) {
            Option::Some(m) => m,
            Option::None => {
                return Err(Error::OnlyMemberDoes);
            },
        };
        if luggage_id >= self.luggage.len() as u128 {
            return Err(Error::ThisLuggageDoesNotExists);
        }
        let idx: usize = luggage_id as usize;
        let alive = match self.luggage[idx].status {
            LuggageStatus::Alive => true,
            LuggageStatus::Dead => false,
        };
        if !alive {
            return Err(Error::ThisLuggageDoesNotExists);
        }
        if !(member_info.name == self.luggage[idx].info.recipient_name) {
            return Err(Error::NotYourLuggage);
        }
        let ghost pre = self.spec_luggage();
        self.luggage[idx].status = LuggageStatus::Dead;
        proof {
            assert(final(self).spec_luggage() =~= pre.update(
                luggage_id as int,
                LuggageRecView { info: pre[luggage_id as int].info, status: LuggageStatus::Dead },
            ));
        }
        Ok(())
    }
}

} // verus!

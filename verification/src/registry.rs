use std::collections::HashMap;
use vstd::prelude::*;

use crate::address::Address;
use crate::error::ContractError;
use crate::assoc::{
    assoc_map, lemma_assoc_push, lemma_assoc_remove, lemma_assoc_update, lemma_index_of_unique,
};
use crate::laws::{
    lemma_burn_effect, lemma_burn_keeps_consistent, lemma_empty_consistent,
    lemma_mint_keeps_consistent,
};

verus! {

broadcast use vstd::std_specs::hash::group_hash_axioms;

/// A non-transferable token that records that `owner` holds the credential
/// `credential_id`.
pub struct SoulboundToken {
    pub id: u64,
    pub owner: Address,
    pub credential_id: u64,
    pub metadata_uri: Vec<u8>,
}

/// What a token holds, as plain values.
pub struct TokenView {
    pub id: u64,
    pub owner: Seq<u8>,
    pub credential_id: u64,
    pub metadata_uri: Seq<u8>,
}

impl View for SoulboundToken {
    type V = TokenView;

    open spec fn view(&self) -> TokenView {
        TokenView {
            id: self.id,
            owner: self.owner@,
            credential_id: self.credential_id,
            metadata_uri: self.metadata_uri@,
        }
    }
}

impl Clone for SoulboundToken {
    fn clone(&self) -> (r: Self)
        ensures
            r@ == self@,
    {
        let metadata_uri = self.metadata_uri.clone();
        assert(metadata_uri@ =~= self.metadata_uri@);
        SoulboundToken {
            id: self.id,
            owner: self.owner.clone(),
            credential_id: self.credential_id,
            metadata_uri,
        }
    }
}

/// The tokens that one owner holds, in the order they were minted.
struct Holding {
    owner: Address,
    token_ids: Vec<u64>,
}

/// The live token minted for one (owner, credential) pair.
struct CredentialLink {
    owner: Address,
    credential_id: u64,
    token_id: u64,
}

/// The stored state of the registry, as plain values.
///
/// `owners` maps a token identifier to the owner stored for it, beside the
/// token itself; `holdings` maps an owner to the identifiers of the tokens
/// listed for it;
/// `links` maps an (owner, credential) pair to the live token minted for it.
pub struct RegistryState {
    pub token_count: u64,
    pub tokens: Map<u64, TokenView>,
    pub owners: Map<u64, Seq<u8>>,
    pub holdings: Map<Seq<u8>, Seq<u64>>,
    pub links: Map<(Seq<u8>, u64), u64>,
}

/// A call on the registry, with its arguments as plain values.
pub enum RegistryCall {
    Mint { owner: Seq<u8>, credential_id: u64, metadata_uri: Seq<u8> },
    Burn { owner: Seq<u8>, token_id: u64 },
    Transfer,
}

/// The index of the first occurrence of `x` in `s` (meaningful when `s`
/// contains `x`).
pub open spec fn first_index(s: Seq<u64>, x: u64) -> int {
    choose|i: int| 0 <= i < s.len() && s[i] == x && forall|j: int| 0 <= j < i ==> s[j] != x
}

/// `s` with its first occurrence of `x` taken out; `s` itself when `x` does
/// not occur.
pub open spec fn without_first(s: Seq<u64>, x: u64) -> Seq<u64> {
    if s.contains(x) {
        s.remove(first_index(s, x))
    } else {
        s
    }
}

impl RegistryState {
    /// The state of a registry in which nothing has been minted.
    pub open spec fn empty() -> RegistryState {
        RegistryState {
            token_count: 0,
            tokens: Map::empty(),
            owners: Map::empty(),
            holdings: Map::empty(),
            links: Map::empty(),
        }
    }

    /// The token identifiers listed for `owner`: none where no list is stored.
    pub open spec fn tokens_of(self, owner: Seq<u8>) -> Seq<u64> {
        if self.holdings.contains_key(owner) {
            self.holdings[owner]
        } else {
            Seq::empty()
        }
    }

    /// Whether a live token is linked to `owner` and `credential_id`.
    pub open spec fn has_link(self, owner: Seq<u8>, credential_id: u64) -> bool {
        self.links.contains_key((owner, credential_id))
    }

    /// Each listing of tokens is strictly increasing.
    pub open spec fn increasing(s: Seq<u64>) -> bool {
        forall|i: int, j: int| 0 <= i < j < s.len() ==> s[i] < s[j]
    }

    /// What every reachable state satisfies: each token is stored under its
    /// own identifier, no larger than the number minted, beside an owner
    /// entry naming its owner, and there are no other owner entries; the links are
    /// exactly the (owner, credential) pairs of the live tokens, each naming
    /// its token; and each owner's list holds exactly the tokens it owns,
    /// oldest first.
    pub open spec fn consistent(self) -> bool {
        &&& forall|id: u64| #[trigger]
            self.tokens.contains_key(id) ==> self.tokens[id].id == id && 1 <= id
                <= self.token_count
        &&& forall|id: u64| #[trigger]
            self.owners.contains_key(id) <==> self.tokens.contains_key(id)
        &&& forall|id: u64| #[trigger]
            self.tokens.contains_key(id) ==> self.owners[id] == self.tokens[id].owner
        &&& forall|k: (Seq<u8>, u64)| #[trigger]
            self.links.contains_key(k) ==> self.tokens.contains_key(self.links[k])
                && self.tokens[self.links[k]].owner == k.0
                && self.tokens[self.links[k]].credential_id == k.1
        &&& forall|id: u64| #[trigger]
            self.tokens.contains_key(id) ==> self.has_link(
                self.tokens[id].owner,
                self.tokens[id].credential_id,
            ) && self.links[(self.tokens[id].owner, self.tokens[id].credential_id)] == id
        &&& forall|o: Seq<u8>| #[trigger] Self::increasing(self.tokens_of(o))
        &&& forall|o: Seq<u8>, id: u64| #[trigger]
            self.tokens_of(o).contains(id) <==> (self.tokens.contains_key(id)
                && self.tokens[id].owner == o)
    }

    /// Whether `owner` may burn the token `token_id`: the token exists and
    /// `owner` is the owner stored in it.
    pub open spec fn burn_allowed(self, owner: Seq<u8>, token_id: u64) -> bool {
        self.tokens.contains_key(token_id) && self.tokens[token_id].owner == owner
    }

    /// The state after `call`. A call that is refused, or that stops on an
    /// input it does not accept (a burn of a missing or foreign token, a
    /// mint past the largest identifier), changes nothing.
    pub open spec fn step(self, call: RegistryCall) -> RegistryState {
        match call {
            RegistryCall::Mint { owner, credential_id, metadata_uri } => {
                if !self.has_link(owner, credential_id) && self.token_count < u64::MAX {
                    self.after_mint(owner, credential_id, metadata_uri)
                } else {
                    self
                }
            },
            RegistryCall::Burn { owner, token_id } => {
                if self.burn_allowed(owner, token_id) {
                    self.after_burn(owner, token_id)
                } else {
                    self
                }
            },
            RegistryCall::Transfer => self,
        }
    }

    /// The state after `calls`, one after another.
    pub open spec fn run(self, calls: Seq<RegistryCall>) -> RegistryState
        decreases calls.len(),
    {
        if calls.len() == 0 {
            self
        } else {
            self.step(calls[0]).run(calls.drop_first())
        }
    }

    /// The state after minting the next token for `owner` and
    /// `credential_id`, with `metadata_uri`.
    pub open spec fn after_mint(
        self,
        owner: Seq<u8>,
        credential_id: u64,
        metadata_uri: Seq<u8>,
    ) -> RegistryState {
        let id = (self.token_count + 1) as u64;
        RegistryState {
            token_count: id,
            tokens: self.tokens.insert(
                id,
                TokenView { id, owner, credential_id, metadata_uri },
            ),
            owners: self.owners.insert(id, owner),
            holdings: self.holdings.insert(owner, self.tokens_of(owner).push(id)),
            links: self.links.insert((owner, credential_id), id),
        }
    }

    /// The state after `owner` burns the token `token_id`: the token and its
    /// owner entry are gone, and so are its first listing among the owner's tokens and the link from
    /// the owner's credential, so that credential can be minted again.
    pub open spec fn after_burn(self, owner: Seq<u8>, token_id: u64) -> RegistryState {
        RegistryState {
            token_count: self.token_count,
            tokens: self.tokens.remove(token_id),
            owners: self.owners.remove(token_id),
            holdings: self.holdings.insert(owner, without_first(self.tokens_of(owner), token_id)),
            links: self.links.remove((owner, self.tokens[token_id].credential_id)),
        }
    }
}

/// The soulbound token registry: the tokens minted so far, the tokens each
/// owner holds, and which credential of which owner each live token stands
/// for.
pub struct SbtRegistryContract {
    token_count: u64,
    tokens: HashMap<u64, SoulboundToken>,
    owners: HashMap<u64, Address>,
    holdings: Vec<Holding>,
    links: Vec<CredentialLink>,
}

impl SbtRegistryContract {
    spec fn holder_keys(&self) -> Seq<Seq<u8>> {
        self.holdings@.map_values(|h: Holding| h.owner@)
    }

    spec fn holder_ids(&self) -> Seq<Seq<u64>> {
        self.holdings@.map_values(|h: Holding| h.token_ids@)
    }

    spec fn link_keys(&self) -> Seq<(Seq<u8>, u64)> {
        self.links@.map_values(|l: CredentialLink| (l.owner@, l.credential_id))
    }

    spec fn link_targets(&self) -> Seq<u64> {
        self.links@.map_values(|l: CredentialLink| l.token_id)
    }

    /// The representation is sound: each owner, and each (owner, credential)
    /// pair, is stored once.
    pub closed spec fn wf(&self) -> bool {
        &&& self.holder_keys().no_duplicates()
        &&& self.link_keys().no_duplicates()
    }
}

impl View for SbtRegistryContract {
    type V = RegistryState;

    closed spec fn view(&self) -> RegistryState {
        RegistryState {
            token_count: self.token_count,
            tokens: self.tokens@.map_values(|t: SoulboundToken| t@),
            owners: self.owners@.map_values(|a: Address| a@),
            holdings: assoc_map(self.holder_keys(), self.holder_ids()),
            links: assoc_map(self.link_keys(), self.link_targets()),
        }
    }
}

impl SbtRegistryContract {
    /// A registry in which nothing has been minted.
    pub fn new() -> (r: Self)
        ensures
            r.wf(),
            r@ == RegistryState::empty(),
            r@.consistent(),
    {
        proof {
            lemma_empty_consistent();
        }
        let r = SbtRegistryContract {
            token_count: 0,
            tokens: HashMap::new(),
            owners: HashMap::new(),
            holdings: Vec::new(),
            links: Vec::new(),
        };
        assert(r@.tokens =~= Map::empty());
        assert(r@.owners =~= Map::empty());
        assert(r@.holdings =~= Map::empty());
        assert(r@.links =~= Map::empty());
        r
    }

    /// Where `owner` is stored among the holdings, if anywhere.
    fn find_holding(&self, owner: &Address) -> (r: Option<usize>)
        ensures
            match r {
                Some(i) => i < self.holdings@.len() && self.holder_keys()[i as int] == owner@,
                None => !self.holder_keys().contains(owner@),
            },
    {
        let mut i: usize = 0;
        while i < self.holdings.len()
            invariant
                i <= self.holdings@.len(),
                forall|j: int| 0 <= j < i ==> self.holder_keys()[j] != owner@,
            decreases self.holdings@.len() - i,
        {
            if self.holdings[i].owner.same_as(owner) {
                return Some(i);
            }
            i += 1;
        }
        None
    }

    /// Where the pair (`owner`, `credential_id`) is stored among the links,
    /// if anywhere.
    fn find_link(&self, owner: &Address, credential_id: u64) -> (r: Option<usize>)
        ensures
            match r {
                Some(i) => i < self.links@.len() && self.link_keys()[i as int] == (
                owner@,
                credential_id,
                ),
                None => !self.link_keys().contains((owner@, credential_id)),
            },
    {
        let mut i: usize = 0;
        while i < self.links.len()
            invariant
                i <= self.links@.len(),
                forall|j: int| 0 <= j < i ==> self.link_keys()[j] != (owner@, credential_id),
            decreases self.links@.len() - i,
        {
            if self.links[i].credential_id == credential_id && self.links[i].owner.same_as(owner) {
                return Some(i);
            }
            i += 1;
        }
        None
    }

    /// Appends `token_id` to the tokens listed for `owner`, starting a list
    /// where there is none.
    fn push_holding(&mut self, owner: &Address, token_id: u64)
        requires
            old(self).wf(),
        ensures
            final(self).wf(),
            final(self)@ == (RegistryState {
                holdings: old(self)@.holdings.insert(
                    owner@,
                    old(self)@.tokens_of(owner@).push(token_id),
                ),
                ..old(self)@
            }),
    {
        let ghost old_keys = self.holder_keys();
        let ghost old_ids = self.holder_ids();
        match self.find_holding(owner) {
            Some(i) => {
                proof {
                    lemma_index_of_unique(old_keys, i as int);
                }
                self.holdings[i].token_ids.push(token_id);
                proof {
                    assert(self.holder_keys() =~= old_keys);
                    assert(self.holder_ids() =~= old_ids.update(
                        i as int,
                        old_ids[i as int].push(token_id),
                    ));
                    lemma_assoc_update(old_keys, old_ids, i as int, old_ids[i as int].push(token_id));
                }
            },
            None => {
                self.holdings.push(Holding { owner: owner.clone(), token_ids: vec![token_id] });
                proof {
                    assert(self.holder_keys() =~= old_keys.push(owner@));
                    assert(self.holdings@[old_ids.len() as int].token_ids@ =~= seq![token_id]);
                    assert(self.holder_ids() =~= old_ids.push(seq![token_id]));
                    assert(Seq::<u64>::empty().push(token_id) =~= seq![token_id]);
                    lemma_assoc_push(old_keys, old_ids, owner@, seq![token_id]);
                }
            },
        }
    }

    /// Records `token_id` as the token minted for `owner` and
    /// `credential_id`, in place of any token recorded for that pair.
    pub fn restore_link(&mut self, owner: Address, credential_id: u64, token_id: u64)
        requires
            old(self).wf(),
        ensures
            final(self).wf(),
            final(self)@ == (RegistryState {
                links: old(self)@.links.insert((owner@, credential_id), token_id),
                ..old(self)@
            }),
    {
        let ghost old_keys = self.link_keys();
        let ghost old_targets = self.link_targets();
        let ghost key = (owner@, credential_id);
        match self.find_link(&owner, credential_id) {
            Some(i) => {
                self.links[i].token_id = token_id;
                proof {
                    assert(self.link_keys() =~= old_keys);
                    assert(self.link_targets() =~= old_targets.update(i as int, token_id));
                    lemma_assoc_update(old_keys, old_targets, i as int, token_id);
                }
            },
            None => {
                self.links.push(CredentialLink { owner, credential_id, token_id });
                proof {
                    assert(self.link_keys() =~= old_keys.push(key));
                    assert(self.link_targets() =~= old_targets.push(token_id));
                    lemma_assoc_push(old_keys, old_targets, key, token_id);
                }
            },
        }
    }

    /// Drops the link of `owner` and `credential_id`, if there is one.
    fn drop_link(&mut self, owner: &Address, credential_id: u64)
        requires
            old(self).wf(),
        ensures
            final(self).wf(),
            final(self)@ == (RegistryState {
                links: old(self)@.links.remove((owner@, credential_id)),
                ..old(self)@
            }),
    {
        let ghost old_keys = self.link_keys();
        let ghost old_targets = self.link_targets();
        match self.find_link(owner, credential_id) {
            Some(i) => {
                let _ = self.links.remove(i);
                proof {
                    assert(self.link_keys() =~= old_keys.remove(i as int));
                    assert(self.link_targets() =~= old_targets.remove(i as int));
                    lemma_assoc_remove(old_keys, old_targets, i as int);
                }
            },
            None => {
                proof {
                    assert(self@.links =~= old(self)@.links.remove((owner@, credential_id)));
                }
            },
        }
    }

    /// Mints a soulbound token for `owner`'s credential `credential_id` and
    /// returns its identifier, one more than the number of tokens minted
    /// before. The token is listed last among the owner's tokens.
    ///
    /// An owner holds at most one token per credential: while a token
    /// minted for this pair exists, nothing changes and the mint is refused.
    /// Once that token is burnt, the credential can be minted again.
    pub fn mint(&mut self, owner: Address, credential_id: u64, metadata_uri: Vec<u8>) -> (r: Result<
        u64,
        ContractError,
    >)
        requires
            old(self).wf(),
            old(self)@.has_link(owner@, credential_id) || old(self)@.token_count < u64::MAX,
        ensures
            final(self).wf(),
            r is Err <==> old(self)@.has_link(owner@, credential_id),
            final(self)@ == old(self)@.step(
                RegistryCall::Mint { owner: owner@, credential_id, metadata_uri: metadata_uri@ },
            ),
            old(self)@.consistent() ==> final(self)@.consistent(),
            match r {
                Ok(id) => {
                    &&& id == old(self)@.token_count + 1
                    &&& final(self)@ == old(self)@.after_mint(
                        owner@,
                        credential_id,
                        metadata_uri@,
                    )
                },
                Err(e) => {
                    &&& e == ContractError::SoulboundNonTransferable
                    &&& final(self)@ == old(self)@
                },
            },
    {
        let ghost old_view = self@;
        if self.find_link(&owner, credential_id).is_some() {
            proof {
                assert(self.link_keys().contains((owner@, credential_id)));
            }
            return Err(ContractError::SoulboundNonTransferable);
        }
        let token_id = self.token_count + 1;
        let token = SoulboundToken { id: token_id, owner: owner.clone(), credential_id, metadata_uri };
        let ghost token_view = token@;
        self.tokens.insert(token_id, token);
        self.owners.insert(token_id, owner.clone());
        self.token_count = token_id;
        proof {
            assert(self@.tokens =~= old_view.tokens.insert(token_id, token_view));
            assert(self@.owners =~= old_view.owners.insert(token_id, owner@));
        }
        self.push_holding(&owner, token_id);
        let ghost owner_view = owner@;
        self.restore_link(owner, credential_id, token_id);
        proof {
            if old_view.consistent() {
                lemma_mint_keeps_consistent(old_view, owner_view, credential_id, metadata_uri@);
            }
        }
        Ok(token_id)
    }

    /// Lists `token_ids` as the tokens of `owner`, in place of any list
    /// stored for it.
    pub fn restore_holding(&mut self, owner: Address, token_ids: Vec<u64>)
        requires
            old(self).wf(),
        ensures
            final(self).wf(),
            final(self)@ == (RegistryState {
                holdings: old(self)@.holdings.insert(owner@, token_ids@),
                ..old(self)@
            }),
    {
        let ghost old_keys = self.holder_keys();
        let ghost old_ids = self.holder_ids();
        let ghost key = owner@;
        let ghost ids = token_ids@;
        match self.find_holding(&owner) {
            Some(i) => {
                self.holdings[i].token_ids = token_ids;
                proof {
                    assert(self.holder_keys() =~= old_keys);
                    assert(self.holder_ids() =~= old_ids.update(i as int, ids));
                    lemma_assoc_update(old_keys, old_ids, i as int, ids);
                }
            },
            None => {
                self.holdings.push(Holding { owner, token_ids });
                proof {
                    assert(self.holder_keys() =~= old_keys.push(key));
                    assert(self.holder_ids() =~= old_ids.push(ids));
                    lemma_assoc_push(old_keys, old_ids, key, ids);
                }
            },
        }
    }

    /// Where `x` first occurs in `ids`, if anywhere.
    fn first_position(ids: &Vec<u64>, x: u64) -> (r: Option<usize>)
        ensures
            match r {
                Some(p) => {
                    &&& ids@.contains(x)
                    &&& p == first_index(ids@, x)
                    &&& p < ids@.len()
                },
                None => !ids@.contains(x),
            },
    {
        let mut i: usize = 0;
        while i < ids.len()
            invariant
                i <= ids@.len(),
                forall|j: int| 0 <= j < i ==> ids@[j] != x,
            decreases ids@.len() - i,
        {
            if ids[i] == x {
                proof {
                    let s = ids@;
                    assert(0 <= i < s.len() && s[i as int] == x && forall|j: int|
                        0 <= j < i ==> s[j] != x);
                    let k = first_index(s, x);
                    assert(0 <= k < s.len() && s[k] == x && forall|j: int| 0 <= j < k ==> s[j] != x);
                    if k < i {
                        assert(s[k] != x);
                    } else if k > i {
                        assert(s[i as int] != x);
                    }
                }
                return Some(i);
            }
            i += 1;
        }
        None
    }

    /// Takes the first listing of `token_id` out of the tokens of `owner`;
    /// an owner with no list is given an empty one.
    fn drop_from_holding(&mut self, owner: &Address, token_id: u64)
        requires
            old(self).wf(),
        ensures
            final(self).wf(),
            final(self)@ == (RegistryState {
                holdings: old(self)@.holdings.insert(
                    owner@,
                    without_first(old(self)@.tokens_of(owner@), token_id),
                ),
                ..old(self)@
            }),
    {
        let ghost old_keys = self.holder_keys();
        let ghost old_ids = self.holder_ids();
        match self.find_holding(owner) {
            Some(i) => {
                proof {
                    lemma_index_of_unique(old_keys, i as int);
                }
                let pos = Self::first_position(&self.holdings[i].token_ids, token_id);
                if let Some(p) = pos {
                    let _ = self.holdings[i].token_ids.remove(p);
                }
                proof {
                    let new_ids = without_first(old_ids[i as int], token_id);
                    assert(self.holder_keys() =~= old_keys);
                    assert(self.holder_ids() =~= old_ids.update(i as int, new_ids));
                    lemma_assoc_update(old_keys, old_ids, i as int, new_ids);
                }
            },
            None => {
                proof {
                    assert(without_first(Seq::<u64>::empty(), token_id) =~= Seq::<u64>::empty());
                }
                self.restore_holding(owner.clone(), Vec::new());
            },
        }
    }

    /// Burns the token `token_id`, which `owner` holds: the token is gone,
    /// and so are its listing among the owner's tokens and the link from the
    /// owner's credential to it, so that credential can be minted again.
    pub fn burn(&mut self, owner: &Address, token_id: u64)
        requires
            old(self).wf(),
            old(self)@.burn_allowed(owner@, token_id),
        ensures
            final(self).wf(),
            final(self)@ == old(self)@.after_burn(owner@, token_id),
            final(self)@ == old(self)@.step(RegistryCall::Burn { owner: owner@, token_id }),
            old(self)@.consistent() ==> final(self)@.consistent(),
            !final(self)@.tokens.contains_key(token_id),
            forall|x: u64|
                x != token_id ==> (#[trigger] final(self)@.tokens_of(owner@).contains(x)
                    <==> old(self)@.tokens_of(owner@).contains(x)),
            old(self)@.tokens_of(owner@).no_duplicates() ==> !final(self)@.tokens_of(
                owner@,
            ).contains(token_id),
            !old(self)@.tokens_of(owner@).contains(token_id) ==> final(self)@.tokens_of(owner@)
                == old(self)@.tokens_of(owner@),
            old(self)@.tokens_of(owner@).contains(token_id) ==> final(self)@.tokens_of(
                owner@,
            ).len() + 1 == old(self)@.tokens_of(owner@).len(),
    {
        let ghost old_view = self@;
        let credential_id = self.tokens.get(&token_id).unwrap().credential_id;
        let _ = self.tokens.remove(&token_id);
        let _ = self.owners.remove(&token_id);
        proof {
            assert(self@.tokens =~= old_view.tokens.remove(token_id));
            assert(self@.owners =~= old_view.owners.remove(token_id));
        }
        self.drop_from_holding(owner, token_id);
        self.drop_link(owner, credential_id);
        proof {
            lemma_burn_effect(old_view, owner@, token_id);
            if old_view.consistent() {
                lemma_burn_keeps_consistent(old_view, owner@, token_id);
            }
        }
    }

    /// A refusal: a soulbound token never changes hands.
    pub fn transfer(&self, from: &Address, to: &Address, token_id: u64) -> (r: Result<
        (),
        ContractError,
    >)
        ensures
            r == Err::<(), ContractError>(ContractError::SoulboundNonTransferable),
    {
        Err(ContractError::SoulboundNonTransferable)
    }

    /// The token `token_id`.
    pub fn get_token(&self, token_id: u64) -> (r: SoulboundToken)
        requires
            self@.tokens.contains_key(token_id),
        ensures
            r@ == self@.tokens[token_id],
    {
        let t = self.tokens.get(&token_id).unwrap();
        t.clone()
    }

    /// The owner stored for the token `token_id`.
    pub fn owner_of(&self, token_id: u64) -> (r: Address)
        requires
            self@.owners.contains_key(token_id),
        ensures
            r@ == self@.owners[token_id],
    {
        let owner = self.owners.get(&token_id).unwrap();
        owner.clone()
    }

    /// Whether the token `token_id` exists: minted and not burnt.
    pub fn has_token(&self, token_id: u64) -> (r: bool)
        ensures
            r == self@.tokens.contains_key(token_id),
    {
        self.tokens.contains_key(&token_id)
    }

    /// The identifiers of the tokens listed for `owner`, in the order they
    /// were minted; none where the owner has no list.
    pub fn get_tokens_by_owner(&self, owner: &Address) -> (r: Vec<u64>)
        requires
            self.wf(),
        ensures
            r@ == self@.tokens_of(owner@),
    {
        match self.find_holding(owner) {
            Some(i) => {
                proof {
                    lemma_index_of_unique(self.holder_keys(), i as int);
                }
                let ids = self.holdings[i].token_ids.clone();
                assert(ids@ =~= self.holdings@[i as int].token_ids@);
                ids
            },
            None => Vec::new(),
        }
    }

    /// The number of tokens minted so far.
    pub fn token_count(&self) -> (r: u64)
        ensures
            r == self@.token_count,
    {
        self.token_count
    }

    /// The token linked to `owner` and `credential_id`, if there is one.
    pub fn credential_token(&self, owner: &Address, credential_id: u64) -> (r: Option<u64>)
        requires
            self.wf(),
        ensures
            r == (if self@.has_link(owner@, credential_id) {
                Some(self@.links[(owner@, credential_id)])
            } else {
                None::<u64>
            }),
    {
        match self.find_link(owner, credential_id) {
            Some(i) => {
                proof {
                    lemma_index_of_unique(self.link_keys(), i as int);
                }
                Some(self.links[i].token_id)
            },
            None => None,
        }
    }

    /// Sets the number of tokens minted so far.
    pub fn restore_token_count(&mut self, token_count: u64)
        ensures
            final(self).wf() == old(self).wf(),
            final(self)@ == (RegistryState { token_count, ..old(self)@ }),
    {
        self.token_count = token_count;
    }

    /// Stores `token` under the identifier `token_id`, in place of any token
    /// stored there.
    pub fn restore_token(&mut self, token_id: u64, token: SoulboundToken)
        ensures
            final(self).wf() == old(self).wf(),
            final(self)@ == (RegistryState {
                tokens: old(self)@.tokens.insert(token_id, token@),
                ..old(self)@
            }),
    {
        let ghost old_view = self@;
        let ghost token_view = token@;
        self.tokens.insert(token_id, token);
        proof {
            assert(self@.tokens =~= old_view.tokens.insert(token_id, token_view));
        }
    }

    /// Stores `owner` as the owner of the token `token_id`, in place of any
    /// owner stored for it.
    pub fn restore_owner(&mut self, token_id: u64, owner: Address)
        ensures
            final(self).wf() == old(self).wf(),
            final(self)@ == (RegistryState {
                owners: old(self)@.owners.insert(token_id, owner@),
                ..old(self)@
            }),
    {
        let ghost old_view = self@;
        let ghost owner_view = owner@;
        self.owners.insert(token_id, owner);
        proof {
            assert(self@.owners =~= old_view.owners.insert(token_id, owner_view));
        }
    }
}

} // verus!

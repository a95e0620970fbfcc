//! The archive as four append-only relations, and what each statement does
//! to them.
//!
//! [`StoreView`] is the model: every backend that executes the statements
//! of [`crate::rows::Statement`] as they are described there holds these
//! relations. [`RecordStore`] is that model kept in memory.

use crate::rows::{
    BattleRow, BattleRowView, CardInstanceRow, CardInstanceRowView, CardMetadataRow,
    CardMetadataRowView, DeckRow, DeckRowView, Statement, StatementView, statement_views,
};
use std::collections::HashSet;
use vstd::hash_set::StringHashSet;
use vstd::prelude::*;

verus! {

broadcast use vstd::std_specs::hash::group_hash_axioms;

/// Whether the relations exist, and the four relations, each with its rows
/// in the order of their insertion.
pub ghost struct StoreView {
    /// Whether the schema was created.
    pub initialized: bool,
    pub card_metadata: Seq<CardMetadataRowView>,
    pub card_instances: Seq<CardInstanceRowView>,
    pub decks: Seq<DeckRowView>,
    pub battles: Seq<BattleRowView>,
}

impl StoreView {
    /// The archive before its schema is created: no relation, no row.
    pub open spec fn empty() -> StoreView {
        StoreView {
            initialized: false,
            card_metadata: Seq::empty(),
            card_instances: Seq::empty(),
            decks: Seq::empty(),
            battles: Seq::empty(),
        }
    }

    /// The archive after the schema was created: relations that did not
    /// exist are there and empty, and those that existed are as they were.
    pub open spec fn initialize(self) -> StoreView {
        StoreView { initialized: true, ..self }
    }

    /// What holds of every archive: no two rows of a keyed relation have
    /// the same key, and without a schema there is no row.
    pub open spec fn wf(self) -> bool {
        &&& self.keys_unique()
        &&& !self.initialized ==> self.card_metadata.len() == 0 && self.card_instances.len() == 0
            && self.decks.len() == 0 && self.battles.len() == 0
    }

    /// Whether a metadata row with this card type exists.
    pub open spec fn has_card(self, id: u32) -> bool {
        exists|i: int|
            0 <= i < self.card_metadata.len() && (#[trigger] self.card_metadata[i]).id == id
    }

    /// Whether a variant row with this hash exists.
    pub open spec fn has_instance(self, instance_hash: Seq<char>) -> bool {
        exists|i: int|
            0 <= i < self.card_instances.len() && (#[trigger] self.card_instances[i]).instance_hash
                == instance_hash
    }

    /// Whether a deck row with this hash exists.
    pub open spec fn has_deck(self, deck_hash: Seq<char>) -> bool {
        exists|i: int|
            0 <= i < self.decks.len() && (#[trigger] self.decks[i]).deck_hash == deck_hash
    }

    /// No two rows of a keyed relation have the same key.
    pub open spec fn keys_unique(self) -> bool {
        &&& forall|i: int, j: int|
            0 <= i < j < self.card_metadata.len() ==> (#[trigger] self.card_metadata[i]).id != (
            #[trigger] self.card_metadata[j]).id
        &&& forall|i: int, j: int|
            0 <= i < j < self.card_instances.len() ==> (
            #[trigger] self.card_instances[i]).instance_hash != (
            #[trigger] self.card_instances[j]).instance_hash
        &&& forall|i: int, j: int|
            0 <= i < j < self.decks.len() ==> (#[trigger] self.decks[i]).deck_hash != (
            #[trigger] self.decks[j]).deck_hash
    }

    /// Whether the statement adds a row: a keyed insert is ignored where
    /// its key exists.
    pub open spec fn accepts(self, statement: StatementView) -> bool {
        match statement {
            StatementView::InsertCardMetadata(row) => !self.has_card(row.id),
            StatementView::InsertCardInstance(row) => !self.has_instance(row.instance_hash),
            StatementView::InsertDeck(row) => !self.has_deck(row.deck_hash),
            StatementView::InsertBattle(_) => true,
        }
    }

    /// The number of rows that the statement changes: 1 or 0.
    pub open spec fn changes(self, statement: StatementView) -> nat {
        if self.accepts(statement) {
            1
        } else {
            0
        }
    }

    /// The archive after the statement: with the row at the end of its
    /// relation where the statement adds one, unchanged where it does not.
    pub open spec fn apply(self, statement: StatementView) -> StoreView {
        if !self.accepts(statement) {
            self
        } else {
            match statement {
                StatementView::InsertCardMetadata(row) => StoreView {
                    card_metadata: self.card_metadata.push(row),
                    ..self
                },
                StatementView::InsertCardInstance(row) => StoreView {
                    card_instances: self.card_instances.push(row),
                    ..self
                },
                StatementView::InsertDeck(row) => StoreView { decks: self.decks.push(row), ..self },
                StatementView::InsertBattle(row) => StoreView {
                    battles: self.battles.push(row),
                    ..self
                },
            }
        }
    }

    /// The archive after the statements, executed in their order.
    pub open spec fn apply_all(self, statements: Seq<StatementView>) -> StoreView
        decreases statements.len(),
    {
        if statements.len() == 0 {
            self
        } else {
            self.apply_all(statements.drop_last()).apply(statements.last())
        }
    }

    /// Whether a transaction of these statements fails: it does where it
    /// holds a statement and the schema does not exist.
    pub open spec fn fails(self, statements: Seq<StatementView>) -> bool {
        !self.initialized && statements.len() > 0
    }

    /// The archive after a transaction of these statements: all of them
    /// executed in their order, or, where the transaction fails, none.
    pub open spec fn transact(self, statements: Seq<StatementView>) -> StoreView {
        if self.fails(statements) {
            self
        } else {
            self.apply_all(statements)
        }
    }
}

/// The number of battle inserts among the statements.
pub open spec fn battle_inserts(statements: Seq<StatementView>) -> nat
    decreases statements.len(),
{
    if statements.len() == 0 {
        0
    } else if statements.last() is InsertBattle {
        battle_inserts(statements.drop_last()) + 1
    } else {
        battle_inserts(statements.drop_last())
    }
}

/// Statements write rows: they neither create nor remove the schema.
pub proof fn lemma_apply_all_keeps_schema(store: StoreView, statements: Seq<StatementView>)
    ensures
        store.apply_all(statements).initialized == store.initialized,
    decreases statements.len(),
{
    if statements.len() > 0 {
        lemma_apply_all_keeps_schema(store, statements.drop_last());
    }
}

/// A statement leaves the keys of an archive unique.
pub proof fn lemma_apply_keeps_keys_unique(store: StoreView, statement: StatementView)
    requires
        store.keys_unique(),
    ensures
        store.apply(statement).keys_unique(),
{
}

/// A run of statements leaves the keys of an archive unique.
pub proof fn lemma_apply_all_keeps_keys_unique(store: StoreView, statements: Seq<StatementView>)
    requires
        store.keys_unique(),
    ensures
        store.apply_all(statements).keys_unique(),
    decreases statements.len(),
{
    if statements.len() > 0 {
        lemma_apply_all_keeps_keys_unique(store, statements.drop_last());
        lemma_apply_keeps_keys_unique(store.apply_all(statements.drop_last()), statements.last());
    }
}

/// There are at most as many battle inserts as statements.
pub proof fn lemma_battle_inserts_bound(statements: Seq<StatementView>)
    ensures
        battle_inserts(statements) <= statements.len(),
    decreases statements.len(),
{
    if statements.len() > 0 {
        lemma_battle_inserts_bound(statements.drop_last());
    }
}

/// Executing two runs of statements one after the other is executing
/// their concatenation.
pub proof fn lemma_apply_all_concat(
    store: StoreView,
    first: Seq<StatementView>,
    second: Seq<StatementView>,
)
    ensures
        store.apply_all(first + second) == store.apply_all(first).apply_all(second),
    decreases second.len(),
{
    if second.len() == 0 {
        assert(first + second =~= first);
    } else {
        lemma_apply_all_concat(store, first, second.drop_last());
        assert((first + second).drop_last() =~= first + second.drop_last());
        assert((first + second).last() == second.last());
    }
}

/// Executing a run of statements and then one more is executing the run
/// with that statement at its end.
pub proof fn lemma_apply_all_push(
    store: StoreView,
    statements: Seq<StatementView>,
    statement: StatementView,
)
    ensures
        store.apply_all(statements.push(statement)) == store.apply_all(statements).apply(statement),
{
    assert(statements.push(statement).drop_last() =~= statements);
}

/// Whether every keyed insert among the statements finds its key in the
/// archive.
pub open spec fn covered(store: StoreView, statements: Seq<StatementView>) -> bool {
    forall|i: int|
        0 <= i < statements.len() ==> (#[trigger] statements[i]) is InsertBattle || !store.accepts(
            statements[i],
        )
}

/// Whether two archives hold the same cards, variants and decks.
pub open spec fn same_keyed_rows(a: StoreView, b: StoreView) -> bool {
    &&& a.card_metadata == b.card_metadata
    &&& a.card_instances == b.card_instances
    &&& a.decks == b.decks
}

/// The keys of an archive after a statement: those it had, and the key of
/// the statement's row where the statement is a keyed insert.
pub proof fn lemma_keys_after_apply(store: StoreView, statement: StatementView)
    ensures
        forall|id: u32| #[trigger]
            store.apply(statement).has_card(id) <==> store.has_card(id) || (
            statement matches StatementView::InsertCardMetadata(row) && row.id == id),
        forall|hash: Seq<char>| #[trigger]
            store.apply(statement).has_instance(hash) <==> store.has_instance(hash) || (
            statement matches StatementView::InsertCardInstance(row) && row.instance_hash == hash),
        forall|hash: Seq<char>| #[trigger]
            store.apply(statement).has_deck(hash) <==> store.has_deck(hash) || (
            statement matches StatementView::InsertDeck(row) && row.deck_hash == hash),
{
    let after = store.apply(statement);
    assert forall|id: u32| #[trigger]
        after.has_card(id) <==> store.has_card(id) || (
        statement matches StatementView::InsertCardMetadata(row) && row.id == id) by {
        if store.has_card(id) {
            let i = choose|i: int|
                0 <= i < store.card_metadata.len() && (#[trigger] store.card_metadata[i]).id == id;
            assert(after.card_metadata[i].id == id);
        }
        if statement matches StatementView::InsertCardMetadata(row) && row.id == id
            && store.accepts(statement) {
            assert(after.card_metadata[store.card_metadata.len() as int].id == id);
        }
        if after.has_card(id) {
            let i = choose|i: int|
                0 <= i < after.card_metadata.len() && (#[trigger] after.card_metadata[i]).id == id;
            if i < store.card_metadata.len() {
                assert(store.card_metadata[i].id == id);
            }
        }
    }
    assert forall|hash: Seq<char>| #[trigger]
        after.has_instance(hash) <==> store.has_instance(hash) || (
        statement matches StatementView::InsertCardInstance(row) && row.instance_hash
            == hash) by {
        if store.has_instance(hash) {
            let i = choose|i: int|
                0 <= i < store.card_instances.len() && (
                #[trigger] store.card_instances[i]).instance_hash == hash;
            assert(after.card_instances[i].instance_hash == hash);
        }
        if statement matches StatementView::InsertCardInstance(row) && row.instance_hash == hash
            && store.accepts(statement) {
            assert(after.card_instances[store.card_instances.len() as int].instance_hash == hash);
        }
        if after.has_instance(hash) {
            let i = choose|i: int|
                0 <= i < after.card_instances.len() && (
                #[trigger] after.card_instances[i]).instance_hash == hash;
            if i < store.card_instances.len() {
                assert(store.card_instances[i].instance_hash == hash);
            }
        }
    }
    assert forall|hash: Seq<char>| #[trigger]
        after.has_deck(hash) <==> store.has_deck(hash) || (
        statement matches StatementView::InsertDeck(row) && row.deck_hash == hash) by {
        if store.has_deck(hash) {
            let i = choose|i: int|
                0 <= i < store.decks.len() && (#[trigger] store.decks[i]).deck_hash == hash;
            assert(after.decks[i].deck_hash == hash);
        }
        if statement matches StatementView::InsertDeck(row) && row.deck_hash == hash
            && store.accepts(statement) {
            assert(after.decks[store.decks.len() as int].deck_hash == hash);
        }
        if after.has_deck(hash) {
            let i = choose|i: int|
                0 <= i < after.decks.len() && (#[trigger] after.decks[i]).deck_hash == hash;
            if i < store.decks.len() {
                assert(store.decks[i].deck_hash == hash);
            }
        }
    }
}

/// Rows are only ever added at the end: what a relation held before a
/// statement, it holds after it, in the same places. A keyed insert that
/// found its key before the statement finds it after, and after a keyed
/// insert a second one with the same key finds it.
pub proof fn lemma_apply_appends(store: StoreView, statement: StatementView)
    ensures
        store.card_metadata.is_prefix_of(store.apply(statement).card_metadata),
        store.card_instances.is_prefix_of(store.apply(statement).card_instances),
        store.decks.is_prefix_of(store.apply(statement).decks),
        store.battles.is_prefix_of(store.apply(statement).battles),
        !store.apply(statement).accepts(statement) || statement is InsertBattle,
        forall|other: StatementView|
            !store.accepts(other) ==> !(#[trigger] store.apply(statement).accepts(other)),
{
    lemma_keys_after_apply(store, statement);
}

/// The archive is append-only under any run of statements, and gains one
/// battle row for each battle insert.
pub proof fn law_relations_only_grow(store: StoreView, statements: Seq<StatementView>)
    ensures
        store.card_metadata.is_prefix_of(store.apply_all(statements).card_metadata),
        store.card_instances.is_prefix_of(store.apply_all(statements).card_instances),
        store.decks.is_prefix_of(store.apply_all(statements).decks),
        store.battles.is_prefix_of(store.apply_all(statements).battles),
        store.apply_all(statements).battles.len() == store.battles.len() + battle_inserts(
            statements,
        ),
    decreases statements.len(),
{
    if statements.len() > 0 {
        law_relations_only_grow(store, statements.drop_last());
        lemma_apply_appends(store.apply_all(statements.drop_last()), statements.last());
    }
}

/// After a run of statements the archive holds the key of each keyed insert
/// among them.
pub proof fn lemma_apply_all_covers(store: StoreView, statements: Seq<StatementView>)
    ensures
        covered(store.apply_all(statements), statements),
    decreases statements.len(),
{
    if statements.len() > 0 {
        let before = store.apply_all(statements.drop_last());
        lemma_apply_all_covers(store, statements.drop_last());
        lemma_apply_appends(before, statements.last());
        let after = store.apply_all(statements);
        assert forall|i: int| 0 <= i < statements.len() implies (
        #[trigger] statements[i]) is InsertBattle || !after.accepts(statements[i]) by {
            if i < statements.len() - 1 {
                assert(statements.drop_last()[i] == statements[i]);
            }
        }
    }
}

/// Where the archive holds the key of each keyed insert among the
/// statements, they leave cards, variants and decks as they are.
pub proof fn lemma_covered_changes_battles_only(store: StoreView, statements: Seq<StatementView>)
    requires
        covered(store, statements),
    ensures
        same_keyed_rows(store.apply_all(statements), store),
    decreases statements.len(),
{
    if statements.len() > 0 {
        let init = statements.drop_last();
        assert forall|i: int| 0 <= i < init.len() implies (#[trigger] init[i]) is InsertBattle
            || !store.accepts(init[i]) by {
            assert(init[i] == statements[i]);
        }
        lemma_covered_changes_battles_only(store, init);
        let before = store.apply_all(init);
        assert(statements[statements.len() - 1] == statements.last());
        lemma_same_keyed_rows_accept(before, store, statements.last());
    }
}

/// Two archives with the same cards, variants and decks accept the same
/// statements.
pub proof fn lemma_same_keyed_rows_accept(a: StoreView, b: StoreView, statement: StatementView)
    requires
        same_keyed_rows(a, b),
    ensures
        a.accepts(statement) == b.accepts(statement),
{
}

/// What a sequence of metadata rows holds.
pub open spec fn metadata_views(rows: Seq<CardMetadataRow>) -> Seq<CardMetadataRowView> {
    rows.map_values(|r: CardMetadataRow| r@)
}

/// What a sequence of variant rows holds.
pub open spec fn instance_views(rows: Seq<CardInstanceRow>) -> Seq<CardInstanceRowView> {
    rows.map_values(|r: CardInstanceRow| r@)
}

/// What a sequence of deck rows holds.
pub open spec fn deck_views(rows: Seq<DeckRow>) -> Seq<DeckRowView> {
    rows.map_values(|r: DeckRow| r@)
}

/// What a sequence of battle rows holds.
pub open spec fn battle_row_views(rows: Seq<BattleRow>) -> Seq<BattleRowView> {
    rows.map_values(|r: BattleRow| r@)
}

/// Why a statement or a transaction failed.
#[derive(Debug, Clone, Copy, PartialEq, Eq, Structural)]
pub enum StoreError {
    /// The schema was not created: there is no relation to write to.
    NoSuchTable,
}

/// The archive, kept in memory: the rows of each relation in the order of
/// their insertion, and for each keyed relation the set of its keys.
pub struct RecordStore {
    initialized: bool,
    card_metadata: Vec<CardMetadataRow>,
    card_instances: Vec<CardInstanceRow>,
    decks: Vec<DeckRow>,
    battles: Vec<BattleRow>,
    card_ids: HashSet<u32>,
    instance_hashes: StringHashSet,
    deck_hashes: StringHashSet,
}

impl View for RecordStore {
    type V = StoreView;

    closed spec fn view(&self) -> StoreView {
        StoreView {
            initialized: self.initialized,
            card_metadata: metadata_views(self.card_metadata@),
            card_instances: instance_views(self.card_instances@),
            decks: deck_views(self.decks@),
            battles: battle_row_views(self.battles@),
        }
    }
}

impl RecordStore {
    #[verifier::type_invariant]
    spec fn well_formed(self) -> bool {
        &&& self@.wf()
        &&& forall|id: u32| self.card_ids@.contains(id) <==> self@.has_card(id)
        &&& forall|hash: Seq<char>|
            self.instance_hashes@.contains(hash) <==> self@.has_instance(hash)
        &&& forall|hash: Seq<char>| self.deck_hashes@.contains(hash) <==> self@.has_deck(hash)
    }

    /// A new archive: its schema is yet to be created.
    pub fn new() -> (store: RecordStore)
        ensures
            store@ == StoreView::empty(),
    {
        let store = RecordStore {
            initialized: false,
            card_metadata: Vec::new(),
            card_instances: Vec::new(),
            decks: Vec::new(),
            battles: Vec::new(),
            card_ids: HashSet::new(),
            instance_hashes: StringHashSet::new(),
            deck_hashes: StringHashSet::new(),
        };
        proof {
            assert(store@.card_metadata =~= Seq::empty());
            assert(store@.card_instances =~= Seq::empty());
            assert(store@.decks =~= Seq::empty());
            assert(store@.battles =~= Seq::empty());
        }
        store
    }

    /// Creates the schema where it does not exist. Rows that the archive
    /// holds are left as they are.
    pub fn initialize(&mut self)
        ensures
            final(self)@ == old(self)@.initialize(),
            final(self)@.wf(),
    {
        proof {
            use_type_invariant(&*self);
        }
        let ghost before = self@;
        let mut taken = RecordStore::new();
        core::mem::swap(self, &mut taken);
        let RecordStore {
            initialized: _,
            card_metadata,
            card_instances,
            decks,
            battles,
            card_ids,
            instance_hashes,
            deck_hashes,
        } = taken;
        proof {
            let after = before.initialize();
            assert forall|id: u32| card_ids@.contains(id) <==> after.has_card(id) by {
                assert(after.has_card(id) <==> before.has_card(id));
            }
            assert forall|hash: Seq<char>|
                instance_hashes@.contains(hash) <==> after.has_instance(hash) by {
                assert(after.has_instance(hash) <==> before.has_instance(hash));
            }
            assert forall|hash: Seq<char>|
                deck_hashes@.contains(hash) <==> after.has_deck(hash) by {
                assert(after.has_deck(hash) <==> before.has_deck(hash));
            }
        }
        *self = RecordStore {
            initialized: true,
            card_metadata,
            card_instances,
            decks,
            battles,
            card_ids,
            instance_hashes,
            deck_hashes,
        };
    }

    /// Whether the schema was created.
    pub fn is_initialized(&self) -> (initialized: bool)
        ensures
            initialized == self@.initialized,
    {
        self.initialized
    }

    /// Executes one statement on an archive whose schema exists, and
    /// returns the number of rows it changed.
    fn apply(&mut self, statement: Statement) -> (changes: usize)
        requires
            old(self)@.initialized,
        ensures
            final(self)@ == old(self)@.apply(statement@),
            changes == old(self)@.changes(statement@),
            final(self)@.wf(),
    {
        proof {
            use_type_invariant(&*self);
            lemma_apply_keeps_keys_unique(self@, statement@);
            lemma_keys_after_apply(self@, statement@);
        }
        let mut taken = RecordStore::new();
        core::mem::swap(self, &mut taken);
        let RecordStore {
            initialized,
            mut card_metadata,
            mut card_instances,
            mut decks,
            mut battles,
            mut card_ids,
            mut instance_hashes,
            mut deck_hashes,
        } = taken;
        let mut changes: usize = 0;
        match statement {
            Statement::InsertCardMetadata(row) => {
                if !card_ids.contains(&row.id) {
                    let ghost before = card_metadata@;
                    card_ids.insert(row.id);
                    card_metadata.push(row);
                    changes = 1;
                    proof {
                        assert(metadata_views(card_metadata@) =~= metadata_views(before).push(
                            row@,
                        ));
                    }
                }
            },
            Statement::InsertCardInstance(row) => {
                if !instance_hashes.contains(row.instance_hash.as_str()) {
                    let ghost before = card_instances@;
                    instance_hashes.insert(row.instance_hash.clone());
                    card_instances.push(row);
                    changes = 1;
                    proof {
                        assert(instance_views(card_instances@) =~= instance_views(before).push(
                            row@,
                        ));
                    }
                }
            },
            Statement::InsertDeck(row) => {
                if !deck_hashes.contains(row.deck_hash.as_str()) {
                    let ghost before = decks@;
                    deck_hashes.insert(row.deck_hash.clone());
                    decks.push(row);
                    changes = 1;
                    proof {
                        assert(deck_views(decks@) =~= deck_views(before).push(row@));
                    }
                }
            },
            Statement::InsertBattle(row) => {
                let ghost before = battles@;
                battles.push(row);
                changes = 1;
                proof {
                    assert(battle_row_views(battles@) =~= battle_row_views(before).push(row@));
                }
            },
        }
        *self = RecordStore {
            initialized,
            card_metadata,
            card_instances,
            decks,
            battles,
            card_ids,
            instance_hashes,
            deck_hashes,
        };
        changes
    }

    /// Executes one statement and returns the number of rows it changed: 1
    /// where it added its row, 0 where a keyed insert found its key. Fails,
    /// and changes nothing, where the schema does not exist.
    pub fn execute(&mut self, statement: Statement) -> (result: Result<usize, StoreError>)
        ensures
            result is Ok <==> old(self)@.initialized,
            result matches Ok(changes) ==> final(self)@ == old(self)@.apply(statement@) && changes
                == old(self)@.changes(statement@),
            result matches Err(error) ==> final(self)@ == old(self)@ && error
                == StoreError::NoSuchTable,
            final(self)@.wf(),
    {
        proof {
            use_type_invariant(&*self);
        }
        if !self.initialized {
            return Err(StoreError::NoSuchTable);
        }
        Ok(self.apply(statement))
    }

    /// Executes the statements in their order as one transaction, and
    /// returns the number of battle rows they added. Fails, and changes
    /// nothing, where there is a statement and the schema does not exist.
    pub fn execute_all(&mut self, plan: Vec<Statement>) -> (result: Result<usize, StoreError>)
        ensures
            result is Err <==> old(self)@.fails(statement_views(plan@)),
            final(self)@ == old(self)@.transact(statement_views(plan@)),
            result matches Ok(new_battles) ==> new_battles == battle_inserts(
                statement_views(plan@),
            ),
            result matches Err(error) ==> error == StoreError::NoSuchTable,
            final(self)@.wf(),
    {
        let ghost all = statement_views(plan@);
        let total: usize = plan.len();
        let mut new_battles: usize = 0;
        proof {
            use_type_invariant(&*self);
        }
        if total == 0 {
            return Ok(0);
        }
        if !self.initialized {
            return Err(StoreError::NoSuchTable);
        }
        proof {
            assert(all.take(0) =~= Seq::<StatementView>::empty());
        }
        for statement in it: plan
            invariant
                it.seq() == plan@,
                total == plan@.len(),
                all == statement_views(plan@),
                self@ == old(self)@.apply_all(all.take(it.index() as int)),
                new_battles == battle_inserts(all.take(it.index() as int)),
                self@.initialized,
                self@.wf(),
        {
            proof {
                let next = all.take(it.index() + 1);
                assert(next.drop_last() =~= all.take(it.index() as int));
                assert(next.last() == statement@);
                lemma_battle_inserts_bound(all.take(it.index() as int));
                assert(it.index() < total);
            }
            let is_battle = statement.is_battle_insert();
            let changes = self.apply(statement);
            if is_battle {
                new_battles = new_battles + changes;
            }
        }
        proof {
            assert(all.take(all.len() as int) =~= all);
        }
        Ok(new_battles)
    }

    /// The card metadata rows, in the order of their insertion.
    pub fn card_metadata(&self) -> (rows: &Vec<CardMetadataRow>)
        ensures
            metadata_views(rows@) == self@.card_metadata,
    {
        &self.card_metadata
    }

    /// The card variant rows, in the order of their insertion.
    pub fn card_instances(&self) -> (rows: &Vec<CardInstanceRow>)
        ensures
            instance_views(rows@) == self@.card_instances,
    {
        &self.card_instances
    }

    /// The deck rows, in the order of their insertion.
    pub fn decks(&self) -> (rows: &Vec<DeckRow>)
        ensures
            deck_views(rows@) == self@.decks,
    {
        &self.decks
    }

    /// The battle rows, in the order of their insertion.
    pub fn battles(&self) -> (rows: &Vec<BattleRow>)
        ensures
            battle_row_views(rows@) == self@.battles,
    {
        &self.battles
    }

    /// The number of card metadata rows.
    pub fn card_metadata_count(&self) -> (count: usize)
        ensures
            count == self@.card_metadata.len(),
    {
        self.card_metadata.len()
    }

    /// The number of card variant rows.
    pub fn card_instance_count(&self) -> (count: usize)
        ensures
            count == self@.card_instances.len(),
    {
        self.card_instances.len()
    }

    /// The number of deck rows.
    pub fn deck_count(&self) -> (count: usize)
        ensures
            count == self@.decks.len(),
    {
        self.decks.len()
    }

    /// The number of battle rows.
    pub fn battle_count(&self) -> (count: usize)
        ensures
            count == self@.battles.len(),
    {
        self.battles.len()
    }
}

} // verus!

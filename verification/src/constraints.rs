//! The constraint table: which tiles may stand next to which.
//!
//! A rule `(tile, axis, dir, other)` says that `other` may occupy the point
//! one step from a point that holds `tile`, along `axis` in direction `dir`.
//! The rules of one `(tile, axis, dir)` together are its allow-list. Where
//! none is given, that tile puts no constraint on that neighbour.

use vstd::prelude::*;

verus! {

/// What an allow-list is looked up by: a tile, an axis and a direction.
pub type RuleKey = (usize, usize, i64);

/// The allow-lists as sets.
pub type Rules = Map<RuleKey, Set<usize>>;

/// The allow-lists as they are kept: the tiles of each in the order in which
/// the rules first named them.
pub type RuleLists = Map<RuleKey, Seq<usize>>;

/// The key of a rule.
pub open spec fn key_of(rule: (usize, usize, i64, usize)) -> RuleKey {
    (rule.0, rule.1, rule.2)
}

/// The allow-lists that `list` declares: a key has one where some rule names
/// it, and it holds the tiles of all rules that do.
pub open spec fn rules_of(list: Seq<(usize, usize, i64, usize)>) -> Rules {
    Map::new(
        |key: RuleKey| exists|i: int| 0 <= i < list.len() && key_of(#[trigger] list[i]) == key,
        |key: RuleKey|
            Set::new(
                |other: usize|
                    exists|i: int|
                        0 <= i < list.len() && #[trigger] list[i] == (key.0, key.1, key.2, other),
            ),
    )
}

/// The allow-lists with one more rule: its tile goes to the end of the list
/// of its key, unless the list holds it.
pub open spec fn with_rule(lists: RuleLists, rule: (usize, usize, i64, usize)) -> RuleLists {
    let key = key_of(rule);
    if !lists.dom().contains(key) {
        lists.insert(key, seq![rule.3])
    } else if lists[key].contains(rule.3) {
        lists
    } else {
        lists.insert(key, lists[key].push(rule.3))
    }
}

/// The allow-lists that the rules of `list` make, taken in their order.
pub open spec fn lists_of(list: Seq<(usize, usize, i64, usize)>) -> RuleLists
    decreases list.len(),
{
    if list.len() == 0 {
        Map::empty()
    } else {
        with_rule(lists_of(list.drop_last()), list.last())
    }
}

/// The allow-lists as sets.
pub open spec fn as_sets(lists: RuleLists) -> Rules {
    Map::new(|key: RuleKey| lists.dom().contains(key), |key: RuleKey| lists[key].to_set())
}

/// Whether `tile` at a point lets `other` stand one step along `axis` in
/// direction `dir`: it does where it has no allow-list for that step, or one
/// that holds `other`.
pub open spec fn tile_permits(rules: Rules, tile: usize, axis: usize, dir: i64, other: usize) -> bool {
    rules.dom().contains((tile, axis, dir)) ==> rules[(tile, axis, dir)].contains(other)
}

/// Whether a point of domain `mask` lets `other` stand one step along `axis`
/// in direction `dir`: some tile that the point may still take permits it.
pub open spec fn permits(rules: Rules, mask: Seq<bool>, axis: usize, dir: i64, other: usize) -> bool {
    exists|tile: usize|
        tile < mask.len() && mask[tile as int] && #[trigger] tile_permits(
            rules,
            tile,
            axis,
            dir,
            other,
        )
}

/// One more rule adds its tile to the set of its key.
pub proof fn lemma_with_rule_sets(lists: RuleLists, rule: (usize, usize, i64, usize))
    ensures
        as_sets(with_rule(lists, rule)) == as_sets(lists).insert(
            key_of(rule),
            if lists.dom().contains(key_of(rule)) {
                as_sets(lists)[key_of(rule)].insert(rule.3)
            } else {
                set![rule.3]
            },
        ),
{
    let key = key_of(rule);
    let more = with_rule(lists, rule);
    let goal = as_sets(lists).insert(
        key,
        if lists.dom().contains(key) {
            as_sets(lists)[key].insert(rule.3)
        } else {
            set![rule.3]
        },
    );
    assert forall|k: RuleKey| as_sets(more).dom().contains(k) implies as_sets(more)[k] =~= goal[k] by {
        if k == key {
            if !lists.dom().contains(key) {
                assert(seq![rule.3].to_set() =~= set![rule.3]) by {
                    assert(seq![rule.3][0] == rule.3);
                }
            } else if lists[key].contains(rule.3) {
                assert(lists[key].to_set().insert(rule.3) =~= lists[key].to_set());
            } else {
                let old_list = lists[key];
                let new_list = old_list.push(rule.3);
                assert forall|b: usize| new_list.to_set().contains(b) == old_list.to_set().insert(
                    rule.3,
                ).contains(b) by {
                    if new_list.contains(b) {
                        let j = choose|j: int| 0 <= j < new_list.len() && new_list[j] == b;
                        if j < old_list.len() {
                            assert(old_list[j] == b);
                        }
                    }
                    if old_list.contains(b) {
                        let j = choose|j: int| 0 <= j < old_list.len() && old_list[j] == b;
                        assert(new_list[j] == b);
                    }
                    if b == rule.3 {
                        assert(new_list[old_list.len() as int] == b);
                    }
                }
            }
        }
    }
    assert(as_sets(more) =~= goal);
}

/// One more rule in a list adds its tile to the set of its key.
pub proof fn lemma_rules_of_push(list: Seq<(usize, usize, i64, usize)>, rule: (usize, usize, i64, usize))
    ensures
        rules_of(list.push(rule)) == rules_of(list).insert(
            key_of(rule),
            if rules_of(list).dom().contains(key_of(rule)) {
                rules_of(list)[key_of(rule)].insert(rule.3)
            } else {
                set![rule.3]
            },
        ),
{
    let more = list.push(rule);
    let key = key_of(rule);
    let goal = rules_of(list).insert(
        key,
        if rules_of(list).dom().contains(key) {
            rules_of(list)[key].insert(rule.3)
        } else {
            set![rule.3]
        },
    );
    assert(more[list.len() as int] == rule);
    assert(forall|i: int| 0 <= i < list.len() ==> more[i] == list[i]);
    assert forall|k: RuleKey| rules_of(more).dom().contains(k) == goal.dom().contains(k) by {
        if rules_of(more).dom().contains(k) {
            let i = choose|i: int| 0 <= i < more.len() && key_of(#[trigger] more[i]) == k;
            if i < list.len() {
                assert(key_of(list[i]) == k);
            }
        }
        if rules_of(list).dom().contains(k) {
            let i = choose|i: int| 0 <= i < list.len() && key_of(#[trigger] list[i]) == k;
            assert(key_of(more[i]) == k);
        }
        if k == key {
            assert(key_of(more[list.len() as int]) == k);
        }
    }
    assert forall|k: RuleKey| rules_of(more).dom().contains(k) implies rules_of(more)[k] =~= goal[k] by {
        assert forall|b: usize| rules_of(more)[k].contains(b) == goal[k].contains(b) by {
            if rules_of(more)[k].contains(b) {
                let i = choose|i: int|
                    0 <= i < more.len() && #[trigger] more[i] == (k.0, k.1, k.2, b);
                if i < list.len() {
                    assert(list[i] == (k.0, k.1, k.2, b));
                    assert(key_of(list[i]) == k);
                }
            }
            if goal[k].contains(b) {
                if k == key && b == rule.3 {
                    assert(more[list.len() as int] == (k.0, k.1, k.2, b));
                } else {
                    assert(rules_of(list).dom().contains(k));
                    assert(rules_of(list)[k].contains(b));
                    let i = choose|i: int|
                        0 <= i < list.len() && #[trigger] list[i] == (k.0, k.1, k.2, b);
                    assert(more[i] == (k.0, k.1, k.2, b));
                }
            }
        }
    }
    assert(rules_of(more) =~= goal);
}

/// The lists that rules make hold, as sets, what the rules declare.
pub proof fn lemma_lists_of_sets(list: Seq<(usize, usize, i64, usize)>)
    ensures
        as_sets(lists_of(list)) == rules_of(list),
    decreases list.len(),
{
    if list.len() == 0 {
        assert(as_sets(lists_of(list)) =~= rules_of(list));
    } else {
        let front = list.drop_last();
        lemma_lists_of_sets(front);
        lemma_with_rule_sets(lists_of(front), list.last());
        lemma_rules_of_push(front, list.last());
        assert(front.push(list.last()) =~= list);
        assert(lists_of(front).dom().contains(key_of(list.last())) == rules_of(front).dom().contains(
            key_of(list.last()),
        ));
    }
}

/// Whether `list` holds `tile`.
fn holds(list: &Vec<usize>, tile: usize) -> (found: bool)
    ensures
        found == list@.contains(tile),
{
    let mut j: usize = 0;
    while j < list.len()
        invariant
            j <= list.len(),
            forall|k: int| 0 <= k < j ==> list@[k] != tile,
        decreases list.len() - j,
    {
        if list[j] == tile {
            return true;
        }
        j += 1;
    }
    false
}

/// One allow-list with its key.
struct Rule {
    tile: usize,
    axis: usize,
    dir: i64,
    allowed: Vec<usize>,
}

impl Rule {
    /// What the allow-list is looked up by.
    spec fn key(&self) -> RuleKey {
        (self.tile, self.axis, self.dir)
    }
}

/// The allow-lists, each key once.
pub struct ConstraintTable {
    rules: Vec<Rule>,
}

impl ConstraintTable {
    /// The keys of the allow-lists in the order in which they were first
    /// declared.
    pub closed spec fn keys(&self) -> Seq<RuleKey> {
        Seq::new(self.rules@.len(), |i: int| self.rules@[i].key())
    }

    /// Where the allow-list of `key` is kept.
    closed spec fn place(&self, key: RuleKey) -> int {
        choose|i: int| 0 <= i < self.rules@.len() && self.rules@[i].key() == key
    }

    /// The allow-lists as they are kept.
    pub closed spec fn lists(&self) -> RuleLists {
        Map::new(
            |key: RuleKey| exists|i: int| 0 <= i < self.rules@.len() && self.rules@[i].key() == key,
            |key: RuleKey| self.rules@[self.place(key)].allowed@,
        )
    }

    /// The allow-lists as sets.
    pub open spec fn view(&self) -> Rules {
        as_sets(self.lists())
    }

    /// No key stands twice.
    pub closed spec fn wf(&self) -> bool {
        forall|i: int, j: int|
            0 <= i < j < self.rules@.len() ==> self.rules@[i].key() != self.rules@[j].key()
    }

    /// The allow-list of a key is the one kept with it.
    proof fn lemma_place(&self, i: int)
        requires
            self.wf(),
            0 <= i < self.rules@.len(),
        ensures
            self.lists().dom().contains(self.rules@[i].key()),
            self.place(self.rules@[i].key()) == i,
            self.lists()[self.rules@[i].key()] == self.rules@[i].allowed@,
    {
        let j = self.place(self.rules@[i].key());
        if i < j {
            assert(self.rules@[i].key() != self.rules@[j].key());
        } else if j < i {
            assert(self.rules@[j].key() != self.rules@[i].key());
        }
    }

    /// The table without any rule.
    pub fn new() -> (table: ConstraintTable)
        ensures
            table.wf(),
            table.lists() == lists_of(Seq::empty()),
    {
        let table = ConstraintTable { rules: Vec::new() };
        assert(table.lists() =~= Map::empty());
        table
    }

    /// The position of `key` in the table.
    fn find(&self, tile: usize, axis: usize, dir: i64) -> (found: Option<usize>)
        ensures
            match found {
                Some(i) => i < self.rules@.len() && self.rules@[i as int].key() == (tile, axis, dir),
                None => forall|i: int|
                    0 <= i < self.rules@.len() ==> self.rules@[i].key() != (tile, axis, dir),
            },
    {
        let mut i: usize = 0;
        while i < self.rules.len()
            invariant
                i <= self.rules@.len(),
                forall|k: int| 0 <= k < i ==> self.rules@[k].key() != (tile, axis, dir),
            decreases self.rules.len() - i,
        {
            let rule = &self.rules[i];
            if rule.tile == tile && rule.axis == axis && rule.dir == dir {
                return Some(i);
            }
            i += 1;
        }
        None
    }

    /// The allow-list of `tile` for one step along `axis` in direction `dir`,
    /// if one was declared.
    pub fn get(&self, tile: usize, axis: usize, dir: i64) -> (list: Option<&Vec<usize>>)
        requires
            self.wf(),
        ensures
            list.is_some() == self.lists().dom().contains((tile, axis, dir)),
            list.is_some() ==> list.unwrap()@ == self.lists()[(tile, axis, dir)],
    {
        match self.find(tile, axis, dir) {
            Some(i) => {
                proof {
                    self.lemma_place(i as int);
                }
                Some(&self.rules[i].allowed)
            },
            None => None,
        }
    }

    /// The number of allow-lists.
    pub fn len(&self) -> (n: usize)
        requires
            self.wf(),
        ensures
            n == self.lists().dom().len(),
            self.lists().dom().finite(),
    {
        proof {
            let keys = self.keys();
            assert(keys.no_duplicates());
            keys.unique_seq_to_set();
            assert(keys.to_set() =~= self.lists().dom()) by {
                assert forall|key: RuleKey| keys.to_set().contains(key) implies self.lists().dom().contains(
                    key,
                ) by {
                    let i = choose|i: int| 0 <= i < keys.len() && keys[i] == key;
                    assert(self.rules@[i].key() == key);
                }
                assert forall|key: RuleKey| self.lists().dom().contains(key) implies keys.to_set().contains(
                    key,
                ) by {
                    let i = choose|i: int| 0 <= i < self.rules@.len() && self.rules@[i].key() == key;
                    assert(keys[i] == key);
                }
            }
        }
        self.rules.len()
    }

    /// Adds the rule that `other` may stand one step from `tile` along
    /// `axis` in direction `dir`.
    pub fn allow(&mut self, tile: usize, axis: usize, dir: i64, other: usize)
        requires
            old(self).wf(),
        ensures
            final(self).wf(),
            final(self).lists() == with_rule(old(self).lists(), (tile, axis, dir, other)),
    {
        let ghost before = *self;
        let ghost key = (tile, axis, dir);
        let ghost goal = with_rule(before.lists(), (tile, axis, dir, other));
        match self.find(tile, axis, dir) {
            Some(i) => {
                proof {
                    before.lemma_place(i as int);
                }
                if holds(&self.rules[i].allowed, other) {
                    return ;
                }
                self.rules[i].allowed.push(other);
                proof {
                    let now = self.rules@;
                    let was = before.rules@;
                    assert(now.len() == was.len());
                    assert(forall|k: int| 0 <= k < now.len() ==> now[k].key() == was[k].key());
                    assert(forall|k: int| 0 <= k < now.len() && k != i ==> now[k] == was[k]);
                    assert(now[i as int].allowed@ == was[i as int].allowed@.push(other));
                    assert forall|k: RuleKey| self.lists().dom().contains(k) == goal.dom().contains(
                        k,
                    ) by {
                        if self.lists().dom().contains(k) {
                            let r = choose|r: int| 0 <= r < now.len() && now[r].key() == k;
                            assert(was[r].key() == k);
                        }
                        if before.lists().dom().contains(k) {
                            let r = choose|r: int| 0 <= r < was.len() && was[r].key() == k;
                            assert(now[r].key() == k);
                        }
                    }
                    assert forall|k: RuleKey| self.lists().dom().contains(k) implies self.lists()[k]
                        == goal[k] by {
                        let r = self.place(k);
                        self.lemma_place(r);
                        before.lemma_place(r);
                    }
                    assert(self.lists() =~= goal);
                }
            },
            None => {
                let mut allowed: Vec<usize> = Vec::new();
                allowed.push(other);
                self.rules.push(Rule { tile, axis, dir, allowed });
                proof {
                    let now = self.rules@;
                    let was = before.rules@;
                    let last = was.len() as int;
                    assert(now[last].key() == key);
                    assert(now[last].allowed@ =~= seq![other]);
                    assert(forall|k: int| 0 <= k < was.len() ==> now[k] == was[k]);
                    assert(!before.lists().dom().contains(key));
                    assert forall|k: RuleKey| self.lists().dom().contains(k) == goal.dom().contains(
                        k,
                    ) by {
                        if self.lists().dom().contains(k) {
                            let r = choose|r: int| 0 <= r < now.len() && now[r].key() == k;
                            if r < last {
                                assert(was[r].key() == k);
                            }
                        }
                        if before.lists().dom().contains(k) {
                            let r = choose|r: int| 0 <= r < was.len() && was[r].key() == k;
                            assert(now[r].key() == k);
                        }
                        if k == key {
                            assert(now[last].key() == k);
                        }
                    }
                    assert forall|k: RuleKey| self.lists().dom().contains(k) implies self.lists()[k]
                        == goal[k] by {
                        let r = self.place(k);
                        self.lemma_place(r);
                        if r < last {
                            before.lemma_place(r);
                        }
                    }
                    assert(self.lists() =~= goal);
                }
            },
        }
    }
}

/// The table of the rules in `list`.
pub fn generate_constraints(list: Vec<(usize, usize, i64, usize)>) -> (table: ConstraintTable)
    ensures
        table.wf(),
        table.lists() == lists_of(list@),
        table@ == rules_of(list@),
{
    let mut table = ConstraintTable::new();
    let mut i: usize = 0;
    assert(list@.take(0) =~= Seq::empty());
    while i < list.len()
        invariant
            i <= list.len(),
            table.wf(),
            table.lists() == lists_of(list@.take(i as int)),
        decreases list.len() - i,
    {
        let (tile, axis, dir, other) = list[i];
        proof {
            assert(list@.take(i + 1).drop_last() =~= list@.take(i as int));
            assert(list@.take(i + 1).last() == list@[i as int]);
        }
        table.allow(tile, axis, dir, other);
        i += 1;
    }
    proof {
        assert(list@.take(i as int) =~= list@);
        lemma_lists_of_sets(list@);
    }
    table
}

} // verus!

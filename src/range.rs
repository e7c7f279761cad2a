use vstd::prelude::*;

verus! {

/// A run of free identifiers from `lower_bound` up to `upper_bound`, both
/// included; `None` as upper bound means the run has no end.
#[derive(Debug, Clone, Copy, PartialEq, Eq, Structural)]
pub struct ValidEntityRange {
    pub lower_bound: usize,
    pub upper_bound: Option<usize>,
}

impl ValidEntityRange {
    /// Whether the identifier `x` lies in the run.
    pub open spec fn has(self, x: int) -> bool {
        &&& self.lower_bound <= x
        &&& match self.upper_bound {
            Some(u) => x <= u,
            None => true,
        }
    }

    pub open spec fn valid(self) -> bool {
        match self.upper_bound {
            Some(u) => self.lower_bound <= u,
            None => true,
        }
    }

    /// The smaller of the two upper bounds, `None` when both runs are unbounded.
    pub open spec fn min_upper(self, other: ValidEntityRange) -> Option<usize> {
        match (self.upper_bound, other.upper_bound) {
            (None, None) => None,
            (None, Some(a)) => Some(a),
            (Some(a), None) => Some(a),
            (Some(a), Some(b)) => Some(if a <= b { a } else { b }),
        }
    }

    pub open spec fn max_lower(self, other: ValidEntityRange) -> usize {
        if self.lower_bound >= other.lower_bound {
            self.lower_bound
        } else {
            other.lower_bound
        }
    }

    pub open spec fn intersects_spec(self, other: ValidEntityRange) -> bool {
        match self.min_upper(other) {
            Some(u) => self.max_lower(other) <= u,
            None => true,
        }
    }

    /// Overlapping, or lying side by side with no identifier between them.
    pub open spec fn touches_spec(self, other: ValidEntityRange) -> bool {
        match self.min_upper(other) {
            Some(u) => self.max_lower(other) <= u + 1,
            None => true,
        }
    }

    /// The smallest run that holds both.
    pub open spec fn hull(self, other: ValidEntityRange) -> ValidEntityRange {
        ValidEntityRange {
            lower_bound: if self.lower_bound <= other.lower_bound {
                self.lower_bound
            } else {
                other.lower_bound
            },
            upper_bound: match (self.upper_bound, other.upper_bound) {
                (Some(a), Some(b)) => Some(if a >= b { a } else { b }),
                _ => None,
            },
        }
    }

    pub fn new(lower_bound: usize, upper_bound: Option<usize>) -> (r: ValidEntityRange)
        ensures
            r.lower_bound == lower_bound,
            r.upper_bound == upper_bound,
    {
        ValidEntityRange { lower_bound, upper_bound }
    }

    /// Takes `index` out of the run: what lay below it is handed back as a
    /// run of its own, and the run itself starts again just above it.
    pub fn split_at(&mut self, index: &usize) -> (r: Option<ValidEntityRange>)
        requires
            *index < usize::MAX || *index < old(self).lower_bound,
        ensures
            *index >= old(self).lower_bound ==> {
                &&& final(self).lower_bound == *index + 1
                &&& final(self).upper_bound == old(self).upper_bound
                &&& r == if *index == old(self).lower_bound {
                    None
                } else {
                    Some(
                        (ValidEntityRange {
                            lower_bound: old(self).lower_bound,
                            upper_bound: Some((*index - 1) as usize),
                        }),
                    )
                }
            },
            *index < old(self).lower_bound ==> *final(self) == *old(self) && r is None,
    {
        if *index >= self.lower_bound {
            let new_range = if *index == self.lower_bound {
                None
            } else {
                Some(ValidEntityRange { lower_bound: self.lower_bound, upper_bound: Some(*index - 1) })
            };
            self.lower_bound = *index + 1;
            new_range
        } else {
            None
        }
    }

    /// Widens the run to the hull of both when they touch; reports whether it did.
    pub fn merge_with(&mut self, other: &ValidEntityRange) -> (r: bool)
        ensures
            r == old(self).touches_spec(*other),
            r ==> *final(self) == old(self).hull(*other),
            !r ==> *final(self) == *old(self),
    {
        if self.touches(other) {
            let max_upper_bound: Option<usize> = match (self.upper_bound, other.upper_bound) {
                (Some(a), Some(b)) => Some(if a >= b { a } else { b }),
                _ => None,
            };
            let min_lower_bound: usize = if self.lower_bound <= other.lower_bound {
                self.lower_bound
            } else {
                other.lower_bound
            };
            self.lower_bound = min_lower_bound;
            self.upper_bound = max_upper_bound;
            true
        } else {
            false
        }
    }

    pub fn contains(&self, index: &usize) -> (r: bool)
        ensures
            r == self.has(*index as int),
    {
        if *index >= self.lower_bound {
            match self.upper_bound {
                Some(upper_bound) => *index <= upper_bound,
                None => true,
            }
        } else {
            false
        }
    }

    fn min_upper_bound(&self, other: &ValidEntityRange) -> (r: Option<usize>)
        ensures
            r == self.min_upper(*other),
    {
        match (self.upper_bound, other.upper_bound) {
            (None, None) => None,
            (None, Some(a)) => Some(a),
            (Some(a), None) => Some(a),
            (Some(a), Some(b)) => Some(if a <= b { a } else { b }),
        }
    }

    fn max_lower_bound(&self, other: &ValidEntityRange) -> (r: usize)
        ensures
            r == self.max_lower(*other),
    {
        if self.lower_bound >= other.lower_bound {
            self.lower_bound
        } else {
            other.lower_bound
        }
    }

    pub fn intersects(&self, other: &ValidEntityRange) -> (r: bool)
        ensures
            r == self.intersects_spec(*other),
    {
        let max_lower_bound = self.max_lower_bound(other);
        match self.min_upper_bound(other) {
            Some(upper_bound) => max_lower_bound <= upper_bound,
            None => true,
        }
    }

    pub fn touches(&self, other: &ValidEntityRange) -> (r: bool)
        ensures
            r == self.touches_spec(*other),
    {
        let max_lower_bound = self.max_lower_bound(other);
        match self.min_upper_bound(other) {
            Some(upper_bound) => max_lower_bound <= upper_bound || max_lower_bound - upper_bound
                <= 1,
            None => true,
        }
    }

    pub fn is_valid(&self) -> (r: bool)
        ensures
            r == self.valid(),
    {
        match self.upper_bound {
            Some(upper_bound) => self.lower_bound <= upper_bound,
            None => true,
        }
    }
}


/// `a` ends at least one identifier before `b` begins.
pub open spec fn precedes(a: ValidEntityRange, b: ValidEntityRange) -> bool {
    match a.upper_bound {
        Some(u) => u + 1 < b.lower_bound,
        None => false,
    }
}

/// Runs that are valid, sorted, pairwise apart (neither overlapping nor
/// adjacent), and where a run reaching the largest identifier is kept unbounded.
pub open spec fn ranges_wf(s: Seq<ValidEntityRange>) -> bool {
    &&& forall|i: int| 0 <= i < s.len() ==> #[trigger] s[i].valid() && s[i].upper_bound != Some(
        usize::MAX,
    )
    &&& forall|i: int, j: int| 0 <= i < j < s.len() ==> precedes(#[trigger] s[i], #[trigger] s[j])
}

/// Whether some run of `s` holds `x`.
pub open spec fn covered(s: Seq<ValidEntityRange>, x: int) -> bool {
    exists|i: int| 0 <= i < s.len() && #[trigger] s[i].has(x)
}

/// The identifiers that the runs of `s` hold.
pub open spec fn free_of(s: Seq<ValidEntityRange>) -> Set<usize> {
    Set::new(|x: usize| covered(s, x as int))
}

proof fn lemma_covered_insert(s: Seq<ValidEntityRange>, p: int, r: ValidEntityRange, x: int)
    requires
        0 <= p <= s.len(),
    ensures
        covered(s.insert(p, r), x) == (covered(s, x) || r.has(x)),
{
    let t = s.insert(p, r);
    if covered(s, x) {
        let i = choose|i: int| 0 <= i < s.len() && #[trigger] s[i].has(x);
        if i < p {
            assert(t[i] == s[i]);
        } else {
            assert(t[i + 1] == s[i]);
        }
    }
    if r.has(x) {
        assert(t[p] == r);
    }
    if covered(t, x) {
        let i = choose|i: int| 0 <= i < t.len() && #[trigger] t[i].has(x);
        if i < p {
            assert(t[i] == s[i]);
        } else if i > p {
            assert(t[i] == s[i - 1]);
        }
    }
}

proof fn lemma_covered_update(s: Seq<ValidEntityRange>, p: int, r: ValidEntityRange, x: int)
    requires
        0 <= p < s.len(),
        ranges_wf(s),
    ensures
        covered(s.update(p, r), x) == ((covered(s, x) && !s[p].has(x)) || r.has(x)),
{
    let t = s.update(p, r);
    if covered(s, x) && !s[p].has(x) {
        let i = choose|i: int| 0 <= i < s.len() && #[trigger] s[i].has(x);
        assert(t[i] == s[i]);
    }
    if r.has(x) {
        assert(t[p] == r);
    }
    if covered(t, x) && !r.has(x) {
        let i = choose|i: int| 0 <= i < t.len() && #[trigger] t[i].has(x);
        assert(t[i] == s[i]);
        assert(i != p);
        if i < p {
            assert(precedes(s[i], s[p]));
        } else {
            assert(precedes(s[p], s[i]));
        }
    }
}

proof fn lemma_covered_remove(s: Seq<ValidEntityRange>, p: int, x: int)
    requires
        0 <= p < s.len(),
        ranges_wf(s),
    ensures
        covered(s.remove(p), x) == (covered(s, x) && !s[p].has(x)),
{
    let t = s.remove(p);
    if covered(s, x) && !s[p].has(x) {
        let i = choose|i: int| 0 <= i < s.len() && #[trigger] s[i].has(x);
        if i < p {
            assert(t[i] == s[i]);
        } else {
            assert(t[i - 1] == s[i]);
        }
    }
    if covered(t, x) {
        let i = choose|i: int| 0 <= i < t.len() && #[trigger] t[i].has(x);
        if i < p {
            assert(t[i] == s[i]);
            assert(precedes(s[i], s[p]));
        } else {
            assert(t[i] == s[i + 1]);
            assert(precedes(s[p], s[i + 1]));
        }
    }
}

/// Touching valid runs: the hull holds exactly what the two hold.
proof fn lemma_hull_of_touching(a: ValidEntityRange, b: ValidEntityRange, x: int)
    requires
        a.valid(),
        b.valid(),
        a.touches_spec(b),
    ensures
        a.hull(b).valid(),
        a.hull(b).has(x) == (a.has(x) || b.has(x)),
{
}

proof fn lemma_wf_remove(s: Seq<ValidEntityRange>, p: int)
    requires
        ranges_wf(s),
        0 <= p < s.len(),
    ensures
        ranges_wf(s.remove(p)),
{
    let t = s.remove(p);
    assert forall|i: int, j: int| 0 <= i < j < t.len() implies precedes(#[trigger] t[i], #[trigger] t[j]) by {
        let a = if i < p { i } else { i + 1 };
        let b = if j < p { j } else { j + 1 };
        assert(t[i] == s[a] && t[j] == s[b]);
    }
    assert forall|i: int| 0 <= i < t.len() implies #[trigger] t[i].valid() && t[i].upper_bound != Some(usize::MAX) by {
        let a = if i < p { i } else { i + 1 };
        assert(t[i] == s[a]);
        assert(s[a].valid());
    }
}

/// Replacing a run by a valid run that lies within it keeps the list well formed.
proof fn lemma_wf_update_within(s: Seq<ValidEntityRange>, p: int, r: ValidEntityRange)
    requires
        ranges_wf(s),
        0 <= p < s.len(),
        r.valid(),
        r.upper_bound != Some(usize::MAX),
        s[p].lower_bound <= r.lower_bound,
        match (r.upper_bound, s[p].upper_bound) {
            (Some(a), Some(b)) => a <= b,
            (Some(_), None) => true,
            (None, Some(_)) => false,
            (None, None) => true,
        },
    ensures
        ranges_wf(s.update(p, r)),
{
    let t = s.update(p, r);
    assert forall|i: int, j: int| 0 <= i < j < t.len() implies precedes(#[trigger] t[i], #[trigger] t[j]) by {
        assert(precedes(s[i], s[j]));
    }
    assert forall|i: int| 0 <= i < t.len() implies #[trigger] t[i].valid() && t[i].upper_bound != Some(usize::MAX) by {
        assert(s[i].valid());
    }
}

/// Putting a valid run in front of position `p`, ending before that run and
/// starting no lower than the run before it ended, keeps the list well formed.
proof fn lemma_wf_insert_before(s: Seq<ValidEntityRange>, p: int, r: ValidEntityRange)
    requires
        ranges_wf(s),
        0 <= p < s.len(),
        r.valid(),
        r.upper_bound != Some(usize::MAX),
        precedes(r, s[p]),
        p > 0 ==> precedes(s[p - 1], r),
    ensures
        ranges_wf(s.insert(p, r)),
{
    let t = s.insert(p, r);
    assert forall|i: int, j: int| 0 <= i < j < t.len() implies precedes(#[trigger] t[i], #[trigger] t[j]) by {
        if i < p && j < p {
            assert(precedes(s[i], s[j]));
        } else if i < p && j == p {
            if i < p - 1 {
                assert(precedes(s[i], s[p - 1]));
                assert(s[p - 1].valid());
            }
        } else if i < p {
            assert(precedes(s[i], s[j - 1]));
        } else if i == p {
            if j - 1 > p {
                assert(precedes(s[p], s[j - 1]));
                assert(s[p].valid());
            }
        } else {
            assert(precedes(s[i - 1], s[j - 1]));
        }
    }
    assert forall|i: int| 0 <= i < t.len() implies #[trigger] t[i].valid() && t[i].upper_bound != Some(usize::MAX) by {
        if i < p {
            assert(s[i].valid());
        } else if i > p {
            assert(s[i - 1].valid());
        }
    }
}

proof fn lemma_covered_push(s: Seq<ValidEntityRange>, r: ValidEntityRange, x: int)
    ensures
        covered(s.push(r), x) == (covered(s, x) || r.has(x)),
{
    assert(s.push(r) =~= s.insert(s.len() as int, r));
    lemma_covered_insert(s, s.len() as int, r, x);
}

/// Neither run touches the other.
pub open spec fn apart(a: ValidEntityRange, b: ValidEntityRange) -> bool {
    precedes(a, b) || precedes(b, a)
}

proof fn lemma_apart_of_not_touching(a: ValidEntityRange, b: ValidEntityRange)
    requires
        a.valid(),
        b.valid(),
        !a.touches_spec(b),
    ensures
        apart(a, b),
{
}

proof fn lemma_apart_hull(a: ValidEntityRange, g: ValidEntityRange, r: ValidEntityRange)
    requires
        a.valid(),
        g.valid(),
        r.valid(),
        precedes(a, r),
        apart(a, g),
        g.touches_spec(r),
    ensures
        apart(a, g.hull(r)),
{
}

/// Putting a valid run at the place where it belongs keeps the list well formed.
proof fn lemma_wf_insert_at(s: Seq<ValidEntityRange>, p: int, r: ValidEntityRange)
    requires
        ranges_wf(s),
        0 <= p <= s.len(),
        r.valid(),
        r.upper_bound != Some(usize::MAX),
        forall|q: int| 0 <= q < p ==> precedes(#[trigger] s[q], r),
        forall|q: int| p <= q < s.len() ==> precedes(r, #[trigger] s[q]),
    ensures
        ranges_wf(s.insert(p, r)),
{
    let t = s.insert(p, r);
    assert forall|i: int, j: int| 0 <= i < j < t.len() implies precedes(#[trigger] t[i], #[trigger] t[j]) by {
        if i < p && j < p {
            assert(precedes(s[i], s[j]));
        } else if i < p && j == p {
        } else if i < p {
            assert(precedes(s[i], s[j - 1]));
        } else if i == p {
            assert(precedes(r, s[j - 1]));
        } else {
            assert(precedes(s[i - 1], s[j - 1]));
        }
    }
    assert forall|i: int| 0 <= i < t.len() implies #[trigger] t[i].valid() && t[i].upper_bound != Some(usize::MAX) by {
        if i < p {
            assert(s[i].valid());
        } else if i > p {
            assert(s[i - 1].valid());
        }
    }
}

/// The allocator of entity identifiers: the free identifiers, kept as a
/// sorted list of runs that neither overlap nor lie side by side.
#[derive(Debug)]
pub struct RangeAllocator {
    valid_entities: Vec<ValidEntityRange>,
}

impl View for RangeAllocator {
    type V = Seq<ValidEntityRange>;

    closed spec fn view(&self) -> Seq<ValidEntityRange> {
        self.valid_entities@
    }
}

impl RangeAllocator {
    pub open spec fn wf(&self) -> bool {
        ranges_wf(self@)
    }

    /// The identifiers that are free to be handed out.
    pub open spec fn free(&self) -> Set<usize> {
        free_of(self@)
    }

    /// Every identifier is free.
    pub fn new() -> (r: RangeAllocator)
        ensures
            r.wf(),
            r@ == seq![ValidEntityRange { lower_bound: 0, upper_bound: None }],
            forall|x: usize| r.free().contains(x),
    {
        let mut valid_entities: Vec<ValidEntityRange> = Vec::new();
        valid_entities.push(ValidEntityRange::new(0, None));
        let r = RangeAllocator { valid_entities };
        assert forall|x: usize| r.free().contains(x) by {
            assert(r@[0].has(x as int));
        }
        r
    }

    /// The current runs of free identifiers, lowest first.
    pub fn ranges(&self) -> (r: Vec<ValidEntityRange>)
        ensures
            r@ == self@,
    {
        self.valid_entities.clone()
    }

    /// The smallest free identifier, if any is free.
    pub fn first_valid_entity(&self) -> (r: Option<usize>)
        requires
            self.wf(),
        ensures
            match r {
                Some(x) => self.free().contains(x) && forall|y: usize| #[trigger]
                    self.free().contains(y) ==> x <= y,
                None => self.free() == Set::<usize>::empty(),
            },
    {
        if self.valid_entities.len() == 0 {
            assert(self.free() =~= Set::<usize>::empty());
            None
        } else {
            let x = self.valid_entities[0].lower_bound;
            assert(self@[0].valid());
            assert(self@[0].has(x as int));
            assert forall|y: usize| #[trigger] self.free().contains(y) implies x <= y by {
                let i = choose|i: int| 0 <= i < self@.len() && #[trigger] self@[i].has(y as int);
                if i > 0 {
                    assert(precedes(self@[0], self@[i]));
                }
            }
            Some(x)
        }
    }

    /// Takes `index` out of the free identifiers, splitting the run that holds it.
    pub fn remove_valid_entity(&mut self, index: usize)
        requires
            old(self).wf(),
        ensures
            final(self).wf(),
            final(self).free() == old(self).free().remove(index),
    {
        let ghost s = self@;
        let mut range_index: usize = 0;
        while range_index < self.valid_entities.len()
            invariant
                self@ == s,
                s == old(self)@,
                ranges_wf(s),
                0 <= range_index <= s.len(),
                forall|j: int| 0 <= j < range_index ==> !(#[trigger] s[j]).has(index as int),
            decreases s.len() - range_index,
        {
            let old_range = self.valid_entities[range_index];
            if old_range.contains(&index) {
                let ghost i = range_index as int;
                assert(s[i].valid());
                if index == usize::MAX {
                    if old_range.lower_bound == usize::MAX {
                        self.valid_entities.remove(range_index);
                        proof {
                            assert forall|x: usize| #[trigger] covered(self@, x as int) == (covered(s, x as int) && x != index) by {
                                lemma_covered_remove(s, i, x as int);
                            }
                            lemma_wf_remove(s, i);
                        }
                    } else {
                        let kept = ValidEntityRange::new(old_range.lower_bound, Some(usize::MAX - 1));
                        self.valid_entities.set(range_index, kept);
                        proof {
                            assert forall|x: usize| #[trigger] covered(self@, x as int) == (covered(s, x as int) && x != index) by {
                                lemma_covered_update(s, i, kept, x as int);
                                if s[i].has(x as int) && x != index {
                                    assert(kept.has(x as int));
                                }
                            }
                            lemma_wf_update_within(s, i, self@[i]);
                        }
                    }
                } else {
                    let mut rest = old_range;
                    let split = rest.split_at(&index);
                    let rest_is_valid = rest.is_valid();
                    match split {
                        Some(new_range) => {
                            if rest_is_valid {
                                self.valid_entities.set(range_index, rest);
                                let ghost t = self@;
                                self.valid_entities.insert(range_index, new_range);
                                proof {
                                    assert forall|x: usize| #[trigger] covered(self@, x as int) == (covered(s, x as int) && x != index) by {
                                        lemma_covered_update(s, i, rest, x as int);
                                        lemma_covered_insert(t, i, new_range, x as int);
                                        if s[i].has(x as int) && x != index {
                                            if x < index {
                                                assert(new_range.has(x as int));
                                            } else {
                                                assert(rest.has(x as int));
                                            }
                                        }
                                    }
                                    lemma_wf_update_within(s, i, rest);
                                    lemma_wf_insert_before(t, i, new_range);
                                }
                            } else {
                                self.valid_entities.set(range_index, new_range);
                                proof {
                                    assert forall|x: usize| #[trigger] covered(self@, x as int) == (covered(s, x as int) && x != index) by {
                                        lemma_covered_update(s, i, new_range, x as int);
                                        if s[i].has(x as int) && x != index {
                                            assert(new_range.has(x as int));
                                        }
                                    }
                                    lemma_wf_update_within(s, i, self@[i]);
                                }
                            }
                        },
                        None => {
                            if rest_is_valid {
                                self.valid_entities.set(range_index, rest);
                                proof {
                                    assert forall|x: usize| #[trigger] covered(self@, x as int) == (covered(s, x as int) && x != index) by {
                                        lemma_covered_update(s, i, rest, x as int);
                                        if s[i].has(x as int) && x != index {
                                            assert(rest.has(x as int));
                                        }
                                    }
                                    lemma_wf_update_within(s, i, self@[i]);
                                }
                            } else {
                                self.valid_entities.remove(range_index);
                                proof {
                                    assert forall|x: usize| #[trigger] covered(self@, x as int) == (covered(s, x as int) && x != index) by {
                                        lemma_covered_remove(s, i, x as int);
                                    }
                                    lemma_wf_remove(s, i);
                                }
                            }
                        },
                    }
                }
                assert(self.free() =~= free_of(s).remove(index));
                return;
            }
            range_index += 1;
        }
        assert forall|x: usize| free_of(s).contains(x) implies x != index by {
            let j = choose|j: int| 0 <= j < s.len() && #[trigger] s[j].has(x as int);
        }
        assert(self.free() =~= free_of(s).remove(index));
    }

    /// Gives `index` back to the free identifiers, merging it with every run
    /// that touches it.
    pub fn add_valid_entity(&mut self, index: usize)
        requires
            old(self).wf(),
        ensures
            final(self).wf(),
            final(self).free() == old(self).free().insert(index),
    {
        let ghost s = self@;
        let mut range_glob = ValidEntityRange { lower_bound: index, upper_bound: Some(index) };
        let mut new_valid_ranges: Vec<ValidEntityRange> = Vec::new();
        let mut i: usize = 0;
        while i < self.valid_entities.len()
            invariant
                self@ == s,
                s == old(self)@,
                ranges_wf(s),
                0 <= i <= s.len(),
                range_glob.valid(),
                range_glob.has(index as int),
                ranges_wf(new_valid_ranges@),
                forall|a: int, j: int|
                    0 <= a < new_valid_ranges@.len() && i <= j < s.len() ==> precedes(
                        #[trigger] new_valid_ranges@[a],
                        #[trigger] s[j],
                    ),
                forall|a: int|
                    0 <= a < new_valid_ranges@.len() ==> apart(
                        #[trigger] new_valid_ranges@[a],
                        range_glob,
                    ),
                forall|x: usize|
                    (#[trigger] covered(s.subrange(0, i as int), x as int) || x == index) == (
                    covered(new_valid_ranges@, x as int) || range_glob.has(x as int)),
            decreases s.len() - i,
        {
            let old_range = self.valid_entities[i];
            let ghost glob = range_glob;
            let ghost kept = new_valid_ranges@;
            assert(s[i as int].valid());
            assert(s.subrange(0, i + 1) =~= s.subrange(0, i as int).push(s[i as int]));
            if !range_glob.merge_with(&old_range) {
                new_valid_ranges.push(old_range);
                proof {
                    lemma_apart_of_not_touching(old_range, glob);
                    assert forall|x: usize| (#[trigger] covered(s.subrange(0, i + 1), x as int) || x == index)
                        == (covered(new_valid_ranges@, x as int) || range_glob.has(x as int)) by {
                        lemma_covered_push(s.subrange(0, i as int), old_range, x as int);
                        lemma_covered_push(kept, old_range, x as int);
                    }
                    assert forall|a: int, b: int| 0 <= a < b < new_valid_ranges@.len() implies precedes(
                        #[trigger] new_valid_ranges@[a], #[trigger] new_valid_ranges@[b]) by {
                        if b == kept.len() {
                            assert(precedes(kept[a], s[i as int]));
                        } else {
                            assert(precedes(kept[a], kept[b]));
                        }
                    }
                    assert forall|a: int| 0 <= a < new_valid_ranges@.len() implies #[trigger] new_valid_ranges@[a].valid()
                        && new_valid_ranges@[a].upper_bound != Some(usize::MAX) by {
                        if a < kept.len() {
                            assert(kept[a].valid());
                        }
                    }
                    assert forall|a: int, j: int| 0 <= a < new_valid_ranges@.len() && i + 1 <= j < s.len()
                        implies precedes(#[trigger] new_valid_ranges@[a], #[trigger] s[j]) by {
                        if a == kept.len() {
                            assert(precedes(s[i as int], s[j]));
                        } else {
                            assert(precedes(kept[a], s[j]));
                        }
                    }
                    assert forall|a: int| 0 <= a < new_valid_ranges@.len() implies apart(
                        #[trigger] new_valid_ranges@[a], range_glob) by {
                        if a < kept.len() {
                            assert(apart(kept[a], glob));
                        }
                    }
                }
            } else {
                proof {
                    assert forall|x: usize| (#[trigger] covered(s.subrange(0, i + 1), x as int) || x == index)
                        == (covered(new_valid_ranges@, x as int) || range_glob.has(x as int)) by {
                        lemma_covered_push(s.subrange(0, i as int), old_range, x as int);
                        lemma_hull_of_touching(glob, old_range, x as int);
                    }
                    lemma_hull_of_touching(glob, old_range, 0);
                    assert forall|a: int| 0 <= a < new_valid_ranges@.len() implies apart(
                        #[trigger] new_valid_ranges@[a], range_glob) by {
                        assert(precedes(kept[a], s[i as int]));
                        assert(kept[a].valid());
                        lemma_apart_hull(kept[a], glob, old_range);
                    }
                }
            }
            i += 1;
        }
        assert(s.subrange(0, s.len() as int) =~= s);
        let ghost before = range_glob;
        match range_glob.upper_bound {
            Some(u) => {
                if u == usize::MAX {
                    range_glob.upper_bound = None;
                }
            },
            None => {},
        }
        assert forall|a: int| 0 <= a < new_valid_ranges@.len() implies apart(
            #[trigger] new_valid_ranges@[a], range_glob) by {
            assert(apart(new_valid_ranges@[a], before));
        }
        assert forall|x: usize| range_glob.has(x as int) == before.has(x as int) by {}
        let mut p: usize = 0;
        while p < new_valid_ranges.len() && new_valid_ranges[p].lower_bound < range_glob.lower_bound
            invariant
                0 <= p <= new_valid_ranges@.len(),
                range_glob.valid(),
                ranges_wf(new_valid_ranges@),
                forall|a: int|
                    0 <= a < new_valid_ranges@.len() ==> apart(
                        #[trigger] new_valid_ranges@[a],
                        range_glob,
                    ),
                forall|q: int| 0 <= q < p ==> precedes(#[trigger] new_valid_ranges@[q], range_glob),
            decreases new_valid_ranges@.len() - p,
        {
            assert(apart(new_valid_ranges@[p as int], range_glob));
            assert(new_valid_ranges@[p as int].valid());
            p += 1;
        }
        let ghost kept = new_valid_ranges@;
        assert forall|q: int| p <= q < kept.len() implies precedes(range_glob, #[trigger] kept[q]) by {
            assert(apart(kept[q], range_glob));
            assert(apart(kept[p as int], range_glob));
            assert(kept[q].valid());
            assert(kept[p as int].valid());
            assert(kept[p as int].lower_bound >= range_glob.lower_bound);
            if q > p {
                assert(precedes(kept[p as int], kept[q]));
            }
        }
        new_valid_ranges.insert(p, range_glob);
        proof {
            lemma_wf_insert_at(kept, p as int, range_glob);
            assert forall|x: usize| #[trigger] covered(new_valid_ranges@, x as int) == (covered(s, x as int)
                || x == index) by {
                lemma_covered_insert(kept, p as int, range_glob, x as int);
            }
        }
        self.valid_entities = new_valid_ranges;
        assert(self.free() =~= free_of(s).insert(index));
    }

    /// Hands out the smallest free identifier, taking it out of the free ones.
    pub fn allocate_lowest(&mut self) -> (r: Option<usize>)
        requires
            old(self).wf(),
        ensures
            final(self).wf(),
            match r {
                Some(x) => {
                    &&& old(self).free().contains(x)
                    &&& forall|y: usize| #[trigger] old(self).free().contains(y) ==> x <= y
                    &&& final(self).free() == old(self).free().remove(x)
                },
                None => old(self).free() == Set::<usize>::empty() && final(self)@ == old(self)@,
            },
    {
        let first = self.first_valid_entity();
        match first {
            Some(x) => {
                self.remove_valid_entity(x);
                Some(x)
            },
            None => None,
        }
    }

    /// Makes `index` free again.
    pub fn release(&mut self, index: usize)
        requires
            old(self).wf(),
        ensures
            final(self).wf(),
            final(self).free() == old(self).free().insert(index),
    {
        self.add_valid_entity(index);
    }
}

proof fn lemma_first_is_lowest(s: Seq<ValidEntityRange>, x: int)
    requires
        ranges_wf(s),
        covered(s, x),
    ensures
        s.len() > 0,
        s[0].lower_bound <= x,
{
    let i = choose|i: int| 0 <= i < s.len() && #[trigger] s[i].has(x);
    if i > 0 {
        assert(precedes(s[0], s[i]));
        assert(s[0].valid());
    }
}

proof fn lemma_rest(s: Seq<ValidEntityRange>)
    requires
        ranges_wf(s),
        s.len() > 0,
    ensures
        ranges_wf(s.subrange(1, s.len() as int)),
        forall|x: int| #[trigger] covered(s.subrange(1, s.len() as int), x) == (covered(s, x) && !s[0].has(x)),
{
    let t = s.subrange(1, s.len() as int);
    assert(t =~= s.remove(0));
    lemma_wf_remove(s, 0);
    assert forall|x: int| #[trigger] covered(t, x) == (covered(s, x) && !s[0].has(x)) by {
        lemma_covered_remove(s, 0, x);
    }
}

/// Just above a bounded first run lies an identifier that no run holds.
proof fn lemma_gap_after_first(s: Seq<ValidEntityRange>, u: usize)
    requires
        ranges_wf(s),
        s.len() > 0,
        s[0].upper_bound == Some(u),
    ensures
        u < usize::MAX,
        !free_of(s).contains((u + 1) as usize),
{
    assert(s[0].valid());
    if covered(s, u + 1) {
        let i = choose|i: int| 0 <= i < s.len() && #[trigger] s[i].has(u + 1);
        if i > 0 {
            assert(precedes(s[0], s[i]));
        }
    }
}

/// The list of runs is fixed by the set of free identifiers: two well-formed
/// lists that hold the same identifiers are the same list.
pub proof fn lemma_ranges_canonical(s1: Seq<ValidEntityRange>, s2: Seq<ValidEntityRange>)
    requires
        ranges_wf(s1),
        ranges_wf(s2),
        free_of(s1) == free_of(s2),
    ensures
        s1 == s2,
    decreases s1.len(),
{
    if s1.len() == 0 || s2.len() == 0 {
        if s2.len() > 0 {
            assert(s2[0].valid());
            assert(s2[0].has(s2[0].lower_bound as int));
            assert(free_of(s2).contains(s2[0].lower_bound));
        }
        if s1.len() > 0 {
            assert(s1[0].valid());
            assert(s1[0].has(s1[0].lower_bound as int));
            assert(free_of(s1).contains(s1[0].lower_bound));
        }
        assert(s1 =~= s2);
    } else {
        let a = s1[0];
        let b = s2[0];
        assert(a.valid() && b.valid());
        assert(s1[0].has(a.lower_bound as int));
        assert(s2[0].has(b.lower_bound as int));
        assert(free_of(s1).contains(a.lower_bound));
        assert(free_of(s2).contains(b.lower_bound));
        lemma_first_is_lowest(s2, a.lower_bound as int);
        lemma_first_is_lowest(s1, b.lower_bound as int);
        match (a.upper_bound, b.upper_bound) {
            (Some(u1), Some(u2)) => {
                lemma_gap_after_first(s1, u1);
                lemma_gap_after_first(s2, u2);
                if u1 < u2 {
                    assert(s2[0].has(u1 + 1));
                    assert(free_of(s2).contains((u1 + 1) as usize));
                } else if u2 < u1 {
                    assert(s1[0].has(u2 + 1));
                    assert(free_of(s1).contains((u2 + 1) as usize));
                }
            },
            (Some(u1), None) => {
                lemma_gap_after_first(s1, u1);
                assert(s2[0].has(u1 + 1));
                assert(free_of(s2).contains((u1 + 1) as usize));
            },
            (None, Some(u2)) => {
                lemma_gap_after_first(s2, u2);
                assert(s1[0].has(u2 + 1));
                assert(free_of(s1).contains((u2 + 1) as usize));
            },
            (None, None) => {},
        }
        assert(a == b);
        let t1 = s1.subrange(1, s1.len() as int);
        let t2 = s2.subrange(1, s2.len() as int);
        lemma_rest(s1);
        lemma_rest(s2);
        assert forall|x: usize| free_of(t1).contains(x) == free_of(t2).contains(x) by {
            assert(covered(t1, x as int) == (covered(s1, x as int) && !a.has(x as int)));
            assert(covered(t2, x as int) == (covered(s2, x as int) && !b.has(x as int)));
            assert(free_of(s1).contains(x) == free_of(s2).contains(x));
            assert(free_of(s1).contains(x) == covered(s1, x as int));
            assert(free_of(s2).contains(x) == covered(s2, x as int));
            assert(free_of(t1).contains(x) == covered(t1, x as int));
            assert(free_of(t2).contains(x) == covered(t2, x as int));
        }
        assert(free_of(t1) =~= free_of(t2));
        lemma_ranges_canonical(t1, t2);
        assert(s1 =~= seq![a] + t1);
        assert(s2 =~= seq![b] + t2);
    }
}

/// Releasing the identifier that `allocate_lowest` just handed out brings the
/// runs back to exactly what they were before.
pub proof fn lemma_allocate_release_round_trip(
    before: RangeAllocator,
    allocated: RangeAllocator,
    released: RangeAllocator,
    x: usize,
)
    requires
        before.wf(),
        allocated.wf(),
        released.wf(),
        before.free().contains(x),
        allocated.free() == before.free().remove(x),
        released.free() == allocated.free().insert(x),
    ensures
        released@ == before@,
{
    assert(released.free() =~= before.free());
    lemma_ranges_canonical(released@, before@);
}

/// The identifiers handed out and not given back are exactly those that are
/// not free. Taking the smallest free identifier keeps it so when that
/// identifier joins the handed-out ones.
pub proof fn lemma_allocate_conserves(before: RangeAllocator, after: RangeAllocator, allocated: Set<usize>, x: usize)
    requires
        forall|i: usize| before.free().contains(i) != #[trigger] allocated.contains(i),
        before.free().contains(x),
        after.free() == before.free().remove(x),
    ensures
        forall|i: usize| after.free().contains(i) != #[trigger] allocated.insert(x).contains(i),
{
    assert forall|i: usize| after.free().contains(i) != #[trigger] allocated.insert(x).contains(i) by {
        assert(before.free().contains(i) != allocated.contains(i));
    }
}

/// Giving an identifier back keeps the free identifiers and the handed-out
/// ones apart and together covering every identifier.
pub proof fn lemma_release_conserves(before: RangeAllocator, after: RangeAllocator, allocated: Set<usize>, x: usize)
    requires
        forall|i: usize| before.free().contains(i) != #[trigger] allocated.contains(i),
        after.free() == before.free().insert(x),
    ensures
        forall|i: usize| after.free().contains(i) != #[trigger] allocated.remove(x).contains(i),
{
    assert forall|i: usize| after.free().contains(i) != #[trigger] allocated.remove(x).contains(i) by {
        assert(before.free().contains(i) != allocated.contains(i));
    }
}

} // verus!

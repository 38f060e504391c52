//! The decision history: an append-only log of collapse choices, used for
//! stepwise undo and redo. Neither operation re-runs propagation, so
//! undoing or redoing a step does not retroactively fix or re-break
//! neighbours.

use crate::Wave;
use crate::element::element_wf;
use crate::helpers::Vector2;
use crate::helpers::copy_row;
use vstd::prelude::*;

verus! {

/// One collapse decision: where it happened, which pattern was chosen,
/// the full candidate set the element held before the choice, the
/// iteration the choice was made in, and whether it has been undone.
#[derive(Debug, Clone)]
pub struct Record {
    pub element_location: Vector2,
    pub chosen_pattern_id: usize,
    pub previous_pattern_ids: Vec<usize>,
    pub iteration: usize,
    pub undone: bool,
}

/// The most recent record not yet undone, or -1 when every record is
/// undone or none exists.
pub open spec fn latest_active(h: Seq<Record>) -> int
    decreases h.len(),
{
    if h.len() == 0 {
        -1
    } else if !h.last().undone {
        h.len() - 1
    } else {
        latest_active(h.drop_last())
    }
}

/// The most recent undone record, or -1 when none is undone.
pub open spec fn latest_undone(h: Seq<Record>) -> int
    decreases h.len(),
{
    if h.len() == 0 {
        -1
    } else if h.last().undone {
        h.len() - 1
    } else {
        latest_undone(h.drop_last())
    }
}

/// The record a redo reapplies: the most recent undone one, or the last
/// record when none is undone.
pub open spec fn redo_target(h: Seq<Record>) -> int {
    if latest_undone(h) >= 0 {
        latest_undone(h)
    } else {
        h.len() - 1
    }
}

proof fn lemma_latest_active_bounds(h: Seq<Record>)
    ensures
        -1 <= latest_active(h) < h.len(),
        latest_active(h) >= 0 ==> !h[latest_active(h)].undone,
    decreases h.len(),
{
    if h.len() > 0 && h.last().undone {
        lemma_latest_active_bounds(h.drop_last());
    }
}

proof fn lemma_latest_undone_bounds(h: Seq<Record>)
    ensures
        -1 <= latest_undone(h) < h.len(),
        latest_undone(h) >= 0 ==> h[latest_undone(h)].undone,
    decreases h.len(),
{
    if h.len() > 0 && !h.last().undone {
        lemma_latest_undone_bounds(h.drop_last());
    }
}

/// The message of undoing with nothing left to undo.
pub open spec fn nothing_to_undo_error() -> Seq<char> {
    "There is no recorded collapse to undo"@
}

/// The message of redoing with an empty history.
pub open spec fn nothing_to_redo_error() -> Seq<char> {
    "There is no recorded collapse to redo"@
}

/// The message of a history that no longer matches the wave.
pub open spec fn desynchronized_error() -> Seq<char> {
    "The recorded iteration does not match the current iteration"@
}

/// The message of a record whose location left the grid.
pub open spec fn lost_location_error() -> Seq<char> {
    "The recorded location no longer lies in the grid"@
}

impl Wave {
    /// Finds the element standing at `location`, scanning the grid.
    fn find_element(&self, location: Vector2) -> (r: Option<usize>)
        ensures
            r matches Some(e) ==> e < self.elements@.len() && self.elements@[e as int].position
                == location,
            r is None ==> forall|j: int|
                0 <= j < self.elements@.len() ==> (#[trigger] self.elements@[j]).position
                    != location,
    {
        for i in 0..self.elements.len()
            invariant
                forall|j: int|
                    0 <= j < i ==> (#[trigger] self.elements@[j]).position != location,
        {
            if self.elements[i].position.x == location.x && self.elements[i].position.y
                == location.y {
                return Some(i);
            }
        }
        None
    }

    /// Locates the most recent not-yet-undone record, marks it undone,
    /// restores the target element's candidate set to the recorded one,
    /// decrements the iteration counter, and optionally discards the
    /// record. Fails when nothing is left to undo, when the record's
    /// stored iteration no longer matches the engine's, or when its
    /// location left the grid. Propagation is not re-run.
    pub fn undo_collapse(&mut self, remove_record: bool) -> (r: Result<(), String>)
        requires
            old(self).wf(),
        ensures
            final(self).wf(),
            final(self).patterns == old(self).patterns,
            final(self).patterns_total == old(self).patterns_total,
            final(self).chunk_size == old(self).chunk_size,
            final(self).chunk_fill_size == old(self).chunk_fill_size,
            final(self).flags == old(self).flags,
            r is Err ==> *final(self) == *old(self),
            r matches Err(m) ==> (m@ == nothing_to_undo_error() || m@ == desynchronized_error()
                || m@ == lost_location_error()),
            r matches Err(m) && m@ == nothing_to_undo_error() <==> latest_active(
                old(self).history@,
            ) < 0,
            r matches Err(m) && m@ == desynchronized_error() <==> (latest_active(
                old(self).history@,
            ) >= 0 && old(self).history@[latest_active(old(self).history@)].iteration != old(
                self,
            ).iterations),
            r matches Err(m) && m@ == lost_location_error() <==> (latest_active(
                old(self).history@,
            ) >= 0 && old(self).history@[latest_active(old(self).history@)].iteration == old(
                self,
            ).iterations && !(exists|e: int|
                0 <= e < old(self).elements@.len() && (#[trigger] old(self).elements@[e]).position
                    == old(self).history@[latest_active(old(self).history@)].element_location)),
            r is Ok <==> (latest_active(old(self).history@) >= 0 && old(self).history@[
                latest_active(old(self).history@)
            ].iteration == old(self).iterations && (exists|e: int|
                0 <= e < old(self).elements@.len() && (#[trigger] old(self).elements@[e]).position
                    == old(self).history@[latest_active(old(self).history@)].element_location)),
            r is Ok ==> {
                let t = latest_active(old(self).history@);
                let rec = old(self).history@[t];
                &&& t >= 0
                &&& rec.iteration == old(self).iterations
                &&& final(self).iterations == if old(self).iterations > 0 {
                    (old(self).iterations - 1) as usize
                } else {
                    0usize
                }
                &&& final(self).history@ == if remove_record {
                    old(self).history@.remove(t)
                } else {
                    old(self).history@.update(t, Record { undone: true, ..rec })
                }
                &&& final(self).elements@.len() == old(self).elements@.len()
                &&& exists|e: int|
                    {
                        &&& 0 <= e < old(self).elements@.len()
                        &&& (#[trigger] old(self).elements@[e]).position == rec.element_location
                        &&& final(self).elements@[e].values@ == rec.previous_pattern_ids@
                        &&& final(self).elements@[e].position == old(self).elements@[e].position
                        &&& forall|j: int|
                            0 <= j < old(self).elements@.len() && j != e
                                ==> #[trigger] final(self).elements@[j] == old(self).elements@[j]
                    }
            },
    {
        proof {
            lemma_latest_active_bounds(self.history@);
            reveal_strlit("There is no recorded collapse to undo");
            reveal_strlit("The recorded iteration does not match the current iteration");
            reveal_strlit("The recorded location no longer lies in the grid");
            assert(nothing_to_undo_error().len() == 37);
            assert(desynchronized_error().len() == 59);
            assert(lost_location_error().len() == 48);
        }
        let target = self.find_latest_active();
        let t = match target {
            Some(t) => t,
            None => {
                return Err("There is no recorded collapse to undo".to_owned());
            },
        };
        if self.history[t].iteration != self.iterations {
            return Err("The recorded iteration does not match the current iteration".to_owned());
        }
        let location = self.history[t].element_location;
        let e = match self.find_element(location) {
            Some(e) => e,
            None => {
                return Err("The recorded location no longer lies in the grid".to_owned());
            },
        };

        let ghost pre_self = *self;
        proof {
            assert(pre_self.grid_element_ok(e as int));
        }
        let restored = copy_row(&self.history[t].previous_pattern_ids);
        let mut element = self.elements.remove(e);
        element.values = restored;
        self.elements.insert(e, element);

        let mut rec = self.history.remove(t);
        if !remove_record {
            rec.undone = true;
            self.history.insert(t, rec);
        }
        if self.iterations > 0 {
            self.iterations = self.iterations - 1;
        }

        proof {
            assert(self.elements@ =~= pre_self.elements@.update(e as int, self.elements@[e as int]));
            if remove_record {
                assert(self.history@ =~= pre_self.history@.remove(t as int));
            } else {
                assert(self.history@ =~= pre_self.history@.update(
                    t as int,
                    Record { undone: true, ..pre_self.history@[t as int] },
                ));
            }
            assert forall|j: int|
                0 <= j < self.elements@.len() implies #[trigger] self.grid_element_ok(j) by {
                assert(pre_self.grid_element_ok(j));
                if j == e as int {
                    assert(element_wf(
                        pre_self.history@[t as int].previous_pattern_ids@,
                        self.patterns@.len(),
                    ));
                }
            }
            assert(self.grid_wf());
            assert forall|j: int|
                0 <= j < self.history@.len() implies {
                let r2 = #[trigger] self.history@[j];
                &&& r2.chosen_pattern_id < self.patterns@.len()
                &&& element_wf(r2.previous_pattern_ids@, self.patterns@.len())
            } by {
                if remove_record {
                    if j < t as int {
                        assert(self.history@[j] == pre_self.history@[j]);
                    } else {
                        assert(self.history@[j] == pre_self.history@[j + 1]);
                    }
                }
            }
            assert(self.history_wf());
        }
        Ok(())
    }

    /// Reapplies the most recent undone record, or the last record when
    /// none is undone: the target element's candidate set becomes the
    /// single chosen pattern again and the record is marked as applied.
    /// Fails on an empty history, a stale iteration, or a lost location.
    /// Propagation is not re-run.
    pub fn redo_collapse(&mut self) -> (r: Result<(), String>)
        requires
            old(self).wf(),
        ensures
            final(self).wf(),
            final(self).patterns == old(self).patterns,
            final(self).patterns_total == old(self).patterns_total,
            final(self).chunk_size == old(self).chunk_size,
            final(self).chunk_fill_size == old(self).chunk_fill_size,
            final(self).flags == old(self).flags,
            final(self).iterations == old(self).iterations,
            r is Err ==> *final(self) == *old(self),
            r matches Err(m) ==> (m@ == nothing_to_redo_error() || m@ == desynchronized_error()
                || m@ == lost_location_error()),
            r matches Err(m) && m@ == nothing_to_redo_error() <==> old(self).history@.len() == 0,
            r matches Err(m) && m@ == desynchronized_error() <==> (old(self).history@.len() > 0
                && old(self).history@[redo_target(old(self).history@)].iteration != old(
                self,
            ).iterations),
            r matches Err(m) && m@ == lost_location_error() <==> (old(self).history@.len() > 0
                && old(self).history@[redo_target(old(self).history@)].iteration == old(
                self,
            ).iterations && !(exists|e: int|
                0 <= e < old(self).elements@.len() && (#[trigger] old(self).elements@[e]).position
                    == old(self).history@[redo_target(old(self).history@)].element_location)),
            r is Ok <==> (old(self).history@.len() > 0 && old(self).history@[redo_target(
                old(self).history@,
            )].iteration == old(self).iterations && (exists|e: int|
                0 <= e < old(self).elements@.len() && (#[trigger] old(self).elements@[e]).position
                    == old(self).history@[redo_target(old(self).history@)].element_location)),
            r is Ok ==> {
                let t = redo_target(old(self).history@);
                let rec = old(self).history@[t];
                &&& old(self).history@.len() > 0
                &&& rec.iteration == old(self).iterations
                &&& final(self).history@ == old(self).history@.update(
                    t,
                    Record { undone: false, ..rec },
                )
                &&& final(self).elements@.len() == old(self).elements@.len()
                &&& exists|e: int|
                    {
                        &&& 0 <= e < old(self).elements@.len()
                        &&& (#[trigger] old(self).elements@[e]).position == rec.element_location
                        &&& final(self).elements@[e].values@ == seq![rec.chosen_pattern_id]
                        &&& final(self).elements@[e].position == old(self).elements@[e].position
                        &&& forall|j: int|
                            0 <= j < old(self).elements@.len() && j != e
                                ==> #[trigger] final(self).elements@[j] == old(self).elements@[j]
                    }
            },
    {
        proof {
            lemma_latest_undone_bounds(self.history@);
            reveal_strlit("There is no recorded collapse to redo");
            reveal_strlit("The recorded iteration does not match the current iteration");
            reveal_strlit("The recorded location no longer lies in the grid");
            assert(nothing_to_redo_error().len() == 37);
            assert(desynchronized_error().len() == 59);
            assert(lost_location_error().len() == 48);
        }
        if self.history.len() == 0 {
            return Err("There is no recorded collapse to redo".to_owned());
        }
        let t = match self.find_latest_undone() {
            Some(t) => t,
            None => self.history.len() - 1,
        };
        if self.history[t].iteration != self.iterations {
            return Err("The recorded iteration does not match the current iteration".to_owned());
        }
        let location = self.history[t].element_location;
        let e = match self.find_element(location) {
            Some(e) => e,
            None => {
                return Err("The recorded location no longer lies in the grid".to_owned());
            },
        };

        let ghost pre_self = *self;
        let chosen = self.history[t].chosen_pattern_id;
        let mut single: Vec<usize> = Vec::new();
        single.push(chosen);
        let mut element = self.elements.remove(e);
        element.values = single;
        self.elements.insert(e, element);

        let mut rec = self.history.remove(t);
        rec.undone = false;
        self.history.insert(t, rec);

        proof {
            assert(self.elements@ =~= pre_self.elements@.update(e as int, self.elements@[e as int]));
            assert(self.history@ =~= pre_self.history@.update(
                t as int,
                Record { undone: false, ..pre_self.history@[t as int] },
            ));
            assert(self.elements@[e as int].values@ =~= seq![chosen]);
            assert forall|j: int|
                0 <= j < self.elements@.len() implies #[trigger] self.grid_element_ok(j) by {
                assert(pre_self.grid_element_ok(j));
                if j == e as int {
                    assert(pre_self.history@[t as int].chosen_pattern_id < self.patterns@.len());
                    assert(element_wf(self.elements@[j].values@, self.patterns@.len()));
                }
            }
            assert(self.grid_wf());
            assert(self.history_wf());
        }
        Ok(())
    }

    /// The index of the most recent record not yet undone.
    fn find_latest_active(&self) -> (r: Option<usize>)
        ensures
            r matches Some(t) ==> t as int == latest_active(self.history@),
            r is None ==> latest_active(self.history@) < 0,
    {
        let mut i = self.history.len();
        proof {
            assert(self.history@.take(self.history@.len() as int) =~= self.history@);
        }
        while i > 0
            invariant
                i <= self.history@.len(),
                latest_active(self.history@) == latest_active(self.history@.take(i as int)),
            decreases i,
        {
            i = i - 1;
            proof {
                assert(self.history@.take(i + 1).drop_last() =~= self.history@.take(i as int));
                assert(self.history@.take(i + 1).last() == self.history@[i as int]);
            }
            if !self.history[i].undone {
                return Some(i);
            }
        }
        proof {
            assert(self.history@.take(0) =~= Seq::<Record>::empty());
        }
        None
    }

    /// The index of the most recent undone record.
    fn find_latest_undone(&self) -> (r: Option<usize>)
        ensures
            r matches Some(t) ==> t as int == latest_undone(self.history@),
            r is None ==> latest_undone(self.history@) < 0,
    {
        let mut i = self.history.len();
        proof {
            assert(self.history@.take(self.history@.len() as int) =~= self.history@);
        }
        while i > 0
            invariant
                i <= self.history@.len(),
                latest_undone(self.history@) == latest_undone(self.history@.take(i as int)),
            decreases i,
        {
            i = i - 1;
            proof {
                assert(self.history@.take(i + 1).drop_last() =~= self.history@.take(i as int));
                assert(self.history@.take(i + 1).last() == self.history@[i as int]);
            }
            if self.history[i].undone {
                return Some(i);
            }
        }
        proof {
            assert(self.history@.take(0) =~= Seq::<Record>::empty());
        }
        None
    }
}

} // verus!

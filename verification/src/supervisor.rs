//! Which devices are watched.

use vstd::prelude::*;

verus! {

/// Whether two byte strings are the same.
pub fn same_bytes(a: &[u8], b: &[u8]) -> (yes: bool)
    ensures
        yes == (a@ == b@),
{
    if a.len() != b.len() {
        return false;
    }
    let mut i: usize = 0;
    while i < a.len()
        invariant
            i <= a.len(),
            a.len() == b.len(),
            forall|j: int| 0 <= j < i ==> a@[j] == b@[j],
        decreases a.len() - i,
    {
        if a[i] != b[i] {
            return false;
        }
        i = i + 1;
    }
    assert(a@ =~= b@);
    true
}

/// The start of the names of event devices.
pub open spec fn event_prefix() -> Seq<u8> {
    seq![0x65u8, 0x76u8, 0x65u8, 0x6eu8, 0x74u8]
}

/// Whether a name in the input directory is that of an event device: it starts with
/// `event`.
pub fn is_event_node(name: &[u8]) -> (yes: bool)
    ensures
        yes == event_prefix().is_prefix_of(name@),
{
    if name.len() < 5 {
        return false;
    }
    let yes: bool = name[0] == 0x65 && name[1] == 0x76 && name[2] == 0x65 && name[3] == 0x6e
        && name[4] == 0x74;
    proof {
        if yes {
            assert(event_prefix() =~= name@.subrange(0, 5));
        } else {
            assert(event_prefix()[0] == 0x65 && event_prefix()[1] == 0x76 && event_prefix()[2]
                == 0x65 && event_prefix()[3] == 0x6e && event_prefix()[4] == 0x74);
            if event_prefix() == name@.subrange(0, 5) {
                assert(name@.subrange(0, 5)[0] == name@[0]);
                assert(name@.subrange(0, 5)[1] == name@[1]);
                assert(name@.subrange(0, 5)[2] == name@[2]);
                assert(name@.subrange(0, 5)[3] == name@[3]);
                assert(name@.subrange(0, 5)[4] == name@[4]);
            }
        }
    }
    yes
}

/// A device that is to be watched, and the number that it gets.
pub struct Assignment {
    pub path: Vec<u8>,
    pub device_id: u16,
}

/// What the supervisor wants done.
pub enum SupervisorAction {
    /// These devices are to be watched too.
    Watch(Vec<Assignment>),
    /// No device is to be watched any more.
    CloseAll,
    /// Nothing.
    Idle,
}

/// Keeps track of the devices that are watched.
pub struct Supervisor {
    watched: Vec<Vec<u8>>,
    next_device_id: u16,
    watching: bool,
}

/// What a supervisor stands for.
#[verifier::ext_equal]
pub struct SupervisorState {
    /// The paths of the devices that are watched.
    pub watched: Set<Seq<u8>>,
    /// The number that the next device gets.
    pub next_device_id: u16,
    /// Whether devices are watched at all.
    pub watching: bool,
}

/// The number after a device number; after the last one the first.
pub open spec fn id_after(id: u16) -> u16 {
    if id == u16::MAX {
        0
    } else {
        (id + 1) as u16
    }
}

/// What a scan for devices comes to.
#[verifier::ext_equal]
pub struct Scan {
    pub watched: Set<Seq<u8>>,
    pub next_device_id: u16,
    /// The devices that are new, with their numbers.
    pub assigned: Seq<(Seq<u8>, u16)>,
}

impl SupervisorState {
    pub open spec fn init() -> Self {
        SupervisorState { watched: Set::empty(), next_device_id: 0, watching: false }
    }

    /// Devices are watched only while there is someone to watch them for.
    pub open spec fn wf(self) -> bool {
        !self.watching ==> self.watched == Set::<Seq<u8>>::empty()
    }

    /// What comes of finding these paths: each that is not watched is, from now on.
    pub open spec fn scan(self, found: Seq<Seq<u8>>) -> Scan
        decreases found.len(),
    {
        if found.len() == 0 {
            Scan {
                watched: self.watched,
                next_device_id: self.next_device_id,
                assigned: Seq::empty(),
            }
        } else {
            let before = self.scan(found.drop_last());
            let path = found.last();
            if before.watched.contains(path) {
                before
            } else {
                Scan {
                    watched: before.watched.insert(path),
                    next_device_id: id_after(before.next_device_id),
                    assigned: before.assigned.push((path, before.next_device_id)),
                }
            }
        }
    }

    /// After a look around with `has_subscribers` and these paths found.
    pub open spec fn after(self, has_subscribers: bool, found: Seq<Seq<u8>>) -> Self {
        if has_subscribers {
            SupervisorState {
                watched: self.scan(found).watched,
                next_device_id: self.scan(found).next_device_id,
                watching: true,
            }
        } else if self.watching {
            SupervisorState { watched: Set::empty(), watching: false, ..self }
        } else {
            self
        }
    }
}

/// The contents of byte strings.
pub open spec fn contents(paths: Seq<Vec<u8>>) -> Seq<Seq<u8>> {
    paths.map_values(|p: Vec<u8>| p@)
}

/// The contents of assignments.
pub open spec fn assignments(list: Seq<Assignment>) -> Seq<(Seq<u8>, u16)> {
    list.map_values(|a: Assignment| (a.path@, a.device_id))
}

impl View for Supervisor {
    type V = SupervisorState;

    closed spec fn view(&self) -> SupervisorState {
        SupervisorState {
            watched: contents(self.watched@).to_set(),
            next_device_id: self.next_device_id,
            watching: self.watching,
        }
    }
}

impl Supervisor {
    /// No path is kept twice.
    pub closed spec fn distinct(self) -> bool {
        contents(self.watched@).no_duplicates()
    }

    pub open spec fn wf(self) -> bool {
        self.distinct() && self@.wf()
    }

    pub fn new() -> (s: Self)
        ensures
            s.wf(),
            s@ == SupervisorState::init(),
    {
        let s = Supervisor { watched: Vec::new(), next_device_id: 0, watching: false };
        assert(contents(s.watched@).to_set() =~= Set::empty());
        s
    }

    /// The place of a path among those that are watched.
    fn position(&self, path: &[u8]) -> (p: Option<usize>)
        ensures
            p matches Some(i) ==> i < self.watched@.len() && self.watched@[i as int]@ == path@,
            p is None ==> !self@.watched.contains(path@),
            p is Some ==> self@.watched.contains(path@),
    {
        let mut i: usize = 0;
        while i < self.watched.len()
            invariant
                i <= self.watched.len(),
                forall|j: int| 0 <= j < i ==> (#[trigger] self.watched@[j])@ != path@,
            decreases self.watched.len() - i,
        {
            if same_bytes(self.watched[i].as_slice(), path) {
                assert(contents(self.watched@)[i as int] == path@);
                return Some(i);
            }
            i = i + 1;
        }
        proof {
            if self@.watched.contains(path@) {
                let j = choose|j: int|
                    0 <= j < contents(self.watched@).len() && contents(self.watched@)[j] == path@;
                assert(self.watched@[j]@ == path@);
            }
        }
        None
    }

    /// Whether a path is watched.
    pub fn is_watched(&self, path: &[u8]) -> (yes: bool)
        ensures
            yes == self@.watched.contains(path@),
    {
        self.position(path).is_some()
    }

    /// Forgets a path whose device is not watched any more.
    pub fn forget(&mut self, path: &[u8])
        requires
            old(self).wf(),
        ensures
            final(self).wf(),
            final(self)@ == (SupervisorState {
                watched: old(self)@.watched.remove(path@),
                ..old(self)@
            }),
    {
        let ghost before = contents(self.watched@);
        match self.position(path) {
            Some(i) => {
                let _ = self.watched.remove(i);
                proof {
                    let after = contents(self.watched@);
                    assert(after =~= before.remove(i as int));
                    assert forall|x: Seq<u8>| after.to_set().contains(x) == before.to_set().remove(
                        path@,
                    ).contains(x) by {
                        if after.contains(x) {
                            let k = choose|k: int| 0 <= k < after.len() && after[k] == x;
                            let o = if k < i { k } else { k + 1 };
                            assert(before[o] == x);
                            assert(before[i as int] == path@);
                        }
                        if before.contains(x) && x != path@ {
                            let o = choose|o: int| 0 <= o < before.len() && before[o] == x;
                            let k = if o < i { o } else { o - 1 };
                            assert(after[k] == x);
                        }
                    }
                    assert(after.to_set() =~= before.to_set().remove(path@));
                }
            },
            None => {
                assert(self@.watched =~= old(self)@.watched.remove(path@));
            },
        }
    }

    /// Looks at whether there are subscribers and which devices there are, and says
    /// what is to be done.
    pub fn step(&mut self, has_subscribers: bool, found: &[Vec<u8>]) -> (action: SupervisorAction)
        requires
            old(self).wf(),
        ensures
            final(self).wf(),
            final(self)@ == old(self)@.after(has_subscribers, contents(found@)),
            match action {
                SupervisorAction::Watch(list) => has_subscribers && assignments(list@) == old(
                    self,
                )@.scan(contents(found@)).assigned,
                SupervisorAction::CloseAll => !has_subscribers && old(self)@.watching,
                SupervisorAction::Idle => !has_subscribers && !old(self)@.watching,
            },
    {
        if !has_subscribers {
            if self.watching {
                self.watching = false;
                self.watched.clear();
                assert(contents(self.watched@).to_set() =~= Set::empty());
                return SupervisorAction::CloseAll;
            }
            return SupervisorAction::Idle;
        }
        self.watching = true;
        let ghost names = contents(found@);
        let ghost start = old(self)@;
        let mut list: Vec<Assignment> = Vec::new();
        let mut i: usize = 0;
        proof {
            assert(names.take(0) =~= Seq::<Seq<u8>>::empty());
            assert(assignments(list@) =~= Seq::<(Seq<u8>, u16)>::empty());
        }
        while i < found.len()
            invariant
                i <= found.len(),
                names == contents(found@),
                self.wf(),
                self@.watching,
                self@.watched == start.scan(names.take(i as int)).watched,
                self@.next_device_id == start.scan(names.take(i as int)).next_device_id,
                assignments(list@) == start.scan(names.take(i as int)).assigned,
            decreases found.len() - i,
        {
            proof {
                assert(names.take(i + 1).drop_last() =~= names.take(i as int));
                assert(names.take(i + 1).last() == found@[i as int]@);
            }
            let path = found[i].as_slice();
            if self.position(path).is_none() {
                let device_id: u16 = self.next_device_id;
                let ghost before = contents(self.watched@);
                let ghost listed = assignments(list@);
                self.next_device_id = self.next_device_id.wrapping_add(1);
                self.watched.push(vstd::slice::slice_to_vec(path));
                list.push(Assignment { path: vstd::slice::slice_to_vec(path), device_id });
                proof {
                    let after = contents(self.watched@);
                    assert(after =~= before.push(path@));
                    before.lemma_push_to_set_commute(path@);
                    assert(!before.contains(path@));
                    assert(assignments(list@) =~= listed.push((path@, device_id)));
                }
            }
            i = i + 1;
        }
        assert(names.take(i as int) =~= names);
        SupervisorAction::Watch(list)
    }
}

/// A scan watches what it finds beside what was watched before, and gives out the
/// numbers one after the other, to each path that was not watched, once.
pub proof fn law_scan_watches_each_device_once(s: SupervisorState, found: Seq<Seq<u8>>)
    ensures
        forall|p: Seq<u8>| #[trigger]
            s.scan(found).watched.contains(p) <==> s.watched.contains(p) || found.contains(p),
        forall|i: int|
            0 <= i < s.scan(found).assigned.len() ==> found.contains(
                (#[trigger] s.scan(found).assigned[i]).0,
            ) && !s.watched.contains(s.scan(found).assigned[i].0),
        forall|i: int, j: int|
            0 <= i < j < s.scan(found).assigned.len() ==> (#[trigger] s.scan(found).assigned[i]).0
                != (#[trigger] s.scan(found).assigned[j]).0,
    decreases found.len(),
{
    if found.len() > 0 {
        let init = found.drop_last();
        let path = found.last();
        let before = s.scan(init);
        let after = s.scan(found);
        law_scan_watches_each_device_once(s, init);
        assert(found[found.len() - 1] == path);
        assert forall|p: Seq<u8>| found.contains(p) <==> init.contains(p) || p == path by {
            if found.contains(p) && p != path {
                let k = choose|k: int| 0 <= k < found.len() && found[k] == p;
                assert(init[k] == p);
            }
            if init.contains(p) {
                let k = choose|k: int| 0 <= k < init.len() && init[k] == p;
                assert(found[k] == p);
            }
        }
        assert forall|i: int| 0 <= i < after.assigned.len() implies found.contains(
            (#[trigger] after.assigned[i]).0,
        ) && !s.watched.contains(after.assigned[i].0) by {
            if i < before.assigned.len() {
                assert(after.assigned[i] == before.assigned[i]);
            }
        }
        assert forall|i: int, j: int| 0 <= i < j < after.assigned.len() implies (
        #[trigger] after.assigned[i]).0 != (#[trigger] after.assigned[j]).0 by {
            assert(after.assigned[i] == before.assigned[i]);
            assert(before.watched.contains(before.assigned[i].0));
        }
    }
}

/// The numbers of new devices follow each other, around the end of the range.
pub proof fn law_device_numbers_count_up(s: SupervisorState, found: Seq<Seq<u8>>)
    ensures
        s.scan(found).next_device_id == (s.next_device_id + s.scan(found).assigned.len()) % 0x1_0000,
        forall|i: int|
            0 <= i < s.scan(found).assigned.len() ==> (#[trigger] s.scan(found).assigned[i]).1 == (
            s.next_device_id + i) % 0x1_0000,
    decreases found.len(),
{
    if found.len() > 0 {
        law_device_numbers_count_up(s, found.drop_last());
        let before = s.scan(found.drop_last());
        let after = s.scan(found);
        assert forall|i: int| 0 <= i < after.assigned.len() implies (#[trigger] after.assigned[i]).1
            == (s.next_device_id + i) % 0x1_0000 by {
            if i < before.assigned.len() {
                assert(after.assigned[i] == before.assigned[i]);
            }
        }
    }
}

/// What one scan has found the next one does not hand out again.
pub proof fn law_second_scan_finds_nothing_new(s: SupervisorState, found: Seq<Seq<u8>>)
    ensures
        s.after(true, found).scan(found).assigned == Seq::<(Seq<u8>, u16)>::empty(),
        s.after(true, found).after(true, found) == s.after(true, found),
{
    let t = s.after(true, found);
    law_scan_watches_each_device_once(s, found);
    law_scan_watches_each_device_once(t, found);
    if t.scan(found).assigned.len() > 0 {
        let p = t.scan(found).assigned[0].0;
        assert(found.contains(p) && !t.watched.contains(p));
        assert(s.scan(found).watched.contains(p));
    }
    law_device_numbers_count_up(t, found);
    assert(t.scan(found).watched =~= t.watched);
}

/// Without subscribers no device is watched.
pub proof fn law_nothing_is_watched_without_subscribers(s: SupervisorState, found: Seq<Seq<u8>>)
    requires
        s.wf(),
    ensures
        s.after(false, found).watched == Set::<Seq<u8>>::empty(),
        s.after(false, found).next_device_id == s.next_device_id,
{
}

/// A device that was forgotten is watched again when it is found.
pub proof fn law_forgotten_device_is_found_again(s: SupervisorState, path: Seq<u8>)
    ensures
        ({
            let t = SupervisorState { watched: s.watched.remove(path), ..s };
            t.scan(seq![path]).assigned == seq![(path, s.next_device_id)]
        }),
{
    let t = SupervisorState { watched: s.watched.remove(path), ..s };
    assert(seq![path].drop_last() =~= Seq::<Seq<u8>>::empty());
    reveal_with_fuel(SupervisorState::scan, 2);
    assert(t.scan(seq![path]).assigned =~= seq![(path, s.next_device_id)]);
}

/// Whether path `i` of those that were found is new: it is not watched, and none before it
/// is the same.
pub open spec fn is_new_path(watched: Set<Seq<u8>>, found: Seq<Seq<u8>>, i: int) -> bool {
    &&& !watched.contains(found[i])
    &&& forall|j: int| 0 <= j < i ==> #[trigger] found[j] != found[i]
}

/// The devices that are handed out are those that are new, in the order they were found.
pub proof fn law_new_devices_are_handed_out_as_found(s: SupervisorState, found: Seq<Seq<u8>>)
    ensures
        s.scan(found).assigned.map_values(|a: (Seq<u8>, u16)| a.0) == Seq::new(
            found.len(),
            |i: int| i,
        ).filter(|i: int| is_new_path(s.watched, found, i)).map_values(|i: int| found[i]),
    decreases found.len(),
{
    reveal(Seq::filter);
    let all = Seq::new(found.len(), |i: int| i);
    let is_new = |i: int| is_new_path(s.watched, found, i);
    let path_of = |i: int| found[i];
    let first = |a: (Seq<u8>, u16)| a.0;
    let assigned = s.scan(found).assigned;
    if found.len() > 0 {
        let rest = found.drop_last();
        let n = rest.len() as int;
        let front = Seq::new(rest.len(), |i: int| i);
        let is_new_rest = |i: int| is_new_path(s.watched, rest, i);
        let path_of_rest = |i: int| rest[i];
        law_new_devices_are_handed_out_as_found(s, rest);
        law_scan_watches_each_device_once(s, rest);
        assert(all.drop_last() =~= front);
        assert forall|i: int| 0 <= i < front.len() implies is_new(#[trigger] front[i])
            == is_new_rest(front[i]) by {
            assert(rest[i] == found[i]);
            if is_new_path(s.watched, rest, i) {
                assert forall|j: int| 0 <= j < i implies #[trigger] found[j] != found[i] by {
                    assert(rest[j] == found[j]);
                }
            }
            if is_new_path(s.watched, found, i) {
                assert forall|j: int| 0 <= j < i implies #[trigger] rest[j] != rest[i] by {
                    assert(rest[j] == found[j]);
                }
            }
        }
        crate::order::lemma_filter_agrees(front, is_new, is_new_rest);
        let chosen = front.filter(is_new);
        assert forall|k: int| 0 <= k < chosen.len() implies path_of(#[trigger] chosen[k])
            == path_of_rest(chosen[k]) by {
            assert(chosen.contains(chosen[k]));
            front.lemma_filter_contains_rev(is_new, chosen[k]);
            let j = choose|j: int| 0 <= j < front.len() && front[j] == chosen[k];
            assert(rest[j] == found[j]);
        }
        assert(chosen.map_values(path_of) =~= chosen.map_values(path_of_rest));
        assert(chosen.push(n).map_values(path_of) =~= chosen.map_values(path_of).push(found[n]));
        let before = s.scan(rest);
        assert(found.last() == found[n]);
        assert(before.watched.contains(found[n]) <==> s.watched.contains(found[n])
            || rest.contains(found[n]));
        if rest.contains(found[n]) {
            let j = choose|j: int| 0 <= j < rest.len() && rest[j] == found[n];
            assert(found[j] == found[n]);
        } else {
            assert forall|j: int| 0 <= j < n implies #[trigger] found[j] != found[n] by {
                assert(rest[j] == found[j]);
                assert(rest.contains(rest[j]));
            }
        }
        assert(is_new(n) <==> !before.watched.contains(found[n]));
        if is_new(n) {
            assert(assigned.map_values(first) =~= before.assigned.map_values(first).push(found[n]));
        }
    }
    assert(assigned.map_values(first) =~= all.filter(is_new).map_values(path_of));
}

/// What a look around does: with subscribers devices are watched, those that are found
/// beside those that were; without them none is. The numbers of devices go on.
pub proof fn law_look_around(s: SupervisorState, found: Seq<Seq<u8>>)
    requires
        s.wf(),
    ensures
        s.after(true, found).watching,
        forall|p: Seq<u8>| #[trigger]
            s.after(true, found).watched.contains(p) <==> s.watched.contains(p) || found.contains(
                p,
            ),
        s.after(true, found).next_device_id == (s.next_device_id + s.scan(found).assigned.len())
            % 0x1_0000,
        !s.after(false, found).watching,
        forall|p: Seq<u8>| !s.after(false, found).watched.contains(p),
        s.after(false, found).next_device_id == s.next_device_id,
{
    law_scan_watches_each_device_once(s, found);
    law_device_numbers_count_up(s, found);
}

/// At first nothing is watched, and the first device gets the number 0.
pub proof fn law_supervisor_starts_idle()
    ensures
        !SupervisorState::init().watching,
        SupervisorState::init().next_device_id == 0,
        forall|p: Seq<u8>| !SupervisorState::init().watched.contains(p),
{
}

/// The name of an event device starts with the five letters of `event`.
pub proof fn law_names_of_event_devices(name: Seq<u8>)
    ensures
        event_prefix().is_prefix_of(name) <==> name.len() >= 5 && name[0] == 101 && name[1] == 118
            && name[2] == 101 && name[3] == 110 && name[4] == 116,
{
    let p = event_prefix();
    assert(p.len() == 5 && p[0] == 101 && p[1] == 118 && p[2] == 101 && p[3] == 110 && p[4] == 116);
    if name.len() >= 5 {
        let start = name.subrange(0, 5);
        assert(start[0] == name[0] && start[1] == name[1] && start[2] == name[2] && start[3]
            == name[3] && start[4] == name[4]);
        if name[0] == 101 && name[1] == 118 && name[2] == 101 && name[3] == 110 && name[4] == 116 {
            assert(p =~= start);
        }
    }
}

/// Byte strings and assignments are taken one by one, in their order.
pub proof fn law_contents_are_taken_one_by_one(paths: Seq<Vec<u8>>, list: Seq<Assignment>)
    ensures
        contents(paths).len() == paths.len(),
        forall|i: int| 0 <= i < paths.len() ==> #[trigger] contents(paths)[i] == paths[i]@,
        assignments(list).len() == list.len(),
        forall|i: int|
            0 <= i < list.len() ==> #[trigger] assignments(list)[i] == (
                list[i].path@,
                list[i].device_id,
            ),
{
}

} // verus!

use vstd::prelude::*;

use rand::RngExt;

use crate::algo::{check_safety, checked_order, is_safe_order, is_safe_state};

verus! {

broadcast use vstd::seq_lib::group_to_multiset_ensures;

/// Number of resource kinds the table tracks.
pub const RESOURCE_COUNT: usize = 6;

/// A process admitted into the table.
pub struct Data {
    pub id: usize,
    pub name: String,
    pub allocation: [usize; RESOURCE_COUNT],
    pub max: [usize; RESOURCE_COUNT],
    pub need: [usize; RESOURCE_COUNT],
    pub finish: bool,
}

impl Clone for Data {
    fn clone(&self) -> (res: Self)
        ensures
            res == *self,
    {
        Data {
            id: self.id,
            name: self.name.clone(),
            allocation: self.allocation,
            max: self.max,
            need: self.need,
            finish: self.finish,
        }
    }
}

/// A process as entered by the user, before the table admits it.
pub struct Proc {
    pub name: String,
    pub allocation: [usize; RESOURCE_COUNT],
    pub max: [usize; RESOURCE_COUNT],
    pub need: [usize; RESOURCE_COUNT],
}

impl Clone for Proc {
    fn clone(&self) -> (res: Self)
        ensures
            res == *self,
    {
        Proc {
            name: self.name.clone(),
            allocation: self.allocation,
            max: self.max,
            need: self.need,
        }
    }
}

/// The character of the decimal digit `d`.
pub open spec fn digit_char(d: nat) -> char {
    (48 + d) as char
}

/// The decimal digits of `n`, most significant first, without leading zeros.
pub open spec fn decimal(n: nat) -> Seq<char>
    decreases n,
{
    if n < 10 {
        seq![digit_char(n)]
    } else {
        decimal(n / 10).push(digit_char(n % 10))
    }
}

/// `rand::rngs::ThreadRng`, the generator handle of `rand`; nothing inside it is visible.
#[verifier::external_type_specification]
#[verifier::external_body]
pub struct ExThreadRng(rand::rngs::ThreadRng);

/// `rand::rng()`: a handle to the generator of the current thread. Nothing is
/// stated of it.
#[verifier::external_body]
fn thread_rng() -> rand::rngs::ThreadRng {
    rand::rng()
}

/// `RngExt::random_range` on the range `0..=hi`: the value drawn lies in that
/// range. Which value comes out is left open.
#[verifier::external_body]
fn random_up_to(rng: &mut rand::rngs::ThreadRng, hi: usize) -> (v: usize)
    ensures
        v <= hi,
{
    rng.random_range(0..=hi)
}

/// The one-character text of the decimal digit `d`.
fn digit_text(d: usize) -> (s: &'static str)
    requires
        d < 10,
    ensures
        s@ == seq![digit_char(d as nat)],
{
    proof {
        reveal_strlit("0");
        reveal_strlit("1");
        reveal_strlit("2");
        reveal_strlit("3");
        reveal_strlit("4");
        reveal_strlit("5");
        reveal_strlit("6");
        reveal_strlit("7");
        reveal_strlit("8");
        reveal_strlit("9");
    }
    match d {
        0 => "0",
        1 => "1",
        2 => "2",
        3 => "3",
        4 => "4",
        5 => "5",
        6 => "6",
        7 => "7",
        8 => "8",
        _ => "9",
    }
}

/// Appends the decimal digits of `n` to `s`.
fn append_decimal(s: &mut String, n: usize)
    ensures
        final(s)@ == old(s)@ + decimal(n as nat),
    decreases n,
{
    if n >= 10 {
        append_decimal(s, n / 10);
    }
    s.append(digit_text(n % 10));
    proof {
        if n >= 10 {
            assert(old(s)@ + decimal((n / 10) as nat) + seq![digit_char((n % 10) as nat)] =~= old(
                s,
            )@ + decimal(n as nat));
        } else {
            assert(old(s)@ + seq![digit_char(n as nat)] =~= old(s)@ + decimal(n as nat));
        }
    }
}

/// The name of the process with id `id`: `P` followed by the id in decimal.
fn process_name(id: usize) -> (name: String)
    ensures
        name@ == seq!['P'] + decimal(id as nat),
{
    let mut name = String::from_str("P");
    proof {
        reveal_strlit("P");
    }
    append_decimal(&mut name, id);
    name
}

impl Proc {
    /// A process named after `id` whose maximum claim is drawn within `total`
    /// and whose allocation is drawn within both that claim and `available`.
    pub fn random_data(
        id: usize,
        available: &[usize; RESOURCE_COUNT],
        total: &[usize; RESOURCE_COUNT],
    ) -> (p: Self)
        ensures
            p.name@ == seq!['P'] + decimal(id as nat),
            forall|r: int| 0 <= r < RESOURCE_COUNT ==> #[trigger] p.max@[r] <= total@[r],
            forall|r: int|
                0 <= r < RESOURCE_COUNT ==> #[trigger] p.allocation@[r] <= p.max@[r] && p.allocation@[r]
                    <= available@[r],
            forall|r: int|
                0 <= r < RESOURCE_COUNT ==> #[trigger] p.need@[r] == p.max@[r] - p.allocation@[r],
    {
        let mut rng = thread_rng();

        let mut process_max: [usize; RESOURCE_COUNT] = [0, 0, 0, 0, 0, 0];
        let mut allocation: [usize; RESOURCE_COUNT] = [0, 0, 0, 0, 0, 0];
        let mut need: [usize; RESOURCE_COUNT] = [0, 0, 0, 0, 0, 0];

        let mut i: usize = 0;
        while i < RESOURCE_COUNT
            invariant
                i <= RESOURCE_COUNT,
                forall|r: int| 0 <= r < i ==> #[trigger] process_max@[r] <= total@[r],
                forall|r: int|
                    0 <= r < i ==> #[trigger] allocation@[r] <= process_max@[r] && allocation@[r]
                        <= available@[r],
                forall|r: int|
                    0 <= r < i ==> #[trigger] need@[r] == process_max@[r] - allocation@[r],
            decreases RESOURCE_COUNT - i,
        {
            let m = if total[i] > 0 {
                random_up_to(&mut rng, total[i])
            } else {
                0
            };
            let max_alloc = if m < available[i] {
                m
            } else {
                available[i]
            };
            let a = if max_alloc > 0 {
                random_up_to(&mut rng, max_alloc)
            } else {
                0
            };
            process_max[i] = m;
            allocation[i] = a;
            need[i] = m - a;
            i = i + 1;
        }

        Proc { name: process_name(id), allocation, max: process_max, need }
    }
}

/// Why the table refused a process.
#[derive(Debug, PartialEq, Eq, Structural)]
pub enum PushError {
    /// The process holds more of some resource than is available.
    NotEnoughResources,
    /// Admitting the process would leave no safe order.
    Deadlock,
}

impl PushError {
    /// The text shown to the user.
    pub fn message(&self) -> (s: &'static str)
        ensures
            *self == PushError::NotEnoughResources ==> s@ == "Not enough resources"@,
            *self == PushError::Deadlock ==> s@ == "Deadlock detected! Could not allocate resources"@,
    {
        match self {
            PushError::NotEnoughResources => "Not enough resources",
            PushError::Deadlock => "Deadlock detected! Could not allocate resources",
        }
    }
}

/// Index of the first process of `procs` with id `id`, if any.
pub open spec fn find_id(procs: Seq<Data>, id: usize) -> Option<int> {
    if exists|k: int| is_first_with_id(procs, id, k) {
        Some(choose|k: int| is_first_with_id(procs, id, k))
    } else {
        None
    }
}

/// `k` is the first position of `procs` that holds id `id`.
pub open spec fn is_first_with_id(procs: Seq<Data>, id: usize, k: int) -> bool {
    &&& 0 <= k < procs.len()
    &&& procs[k].id == id
    &&& forall|j: int| 0 <= j < k ==> procs[j].id != id
}

/// No two processes of `procs` share an id.
pub open spec fn distinct_ids(procs: Seq<Data>) -> bool {
    forall|i: int, j: int|
        0 <= i < procs.len() && 0 <= j < procs.len() && i != j ==> procs[i].id != procs[j].id
}

/// `d` marked as finished.
pub open spec fn finished(d: Data) -> Data {
    Data {
        id: d.id,
        name: d.name,
        allocation: d.allocation,
        max: d.max,
        need: d.need,
        finish: true,
    }
}

/// `available` once `d` has returned what it holds.
pub open spec fn released_by(available: Seq<usize>, d: Data) -> Seq<usize> {
    Seq::new(RESOURCE_COUNT as nat, |r: int| (available[r] + d.allocation@[r]) as usize)
}

/// The contents of a table.
#[verifier::ext_equal]
pub struct TableModel {
    pub data: Seq<Data>,
    pub available: Seq<usize>,
    pub total: Seq<usize>,
    pub finished: nat,
    pub safe: Seq<Data>,
}

/// A table with no process and no resource.
pub open spec fn empty_table() -> TableModel {
    TableModel {
        data: Seq::empty(),
        available: Seq::new(RESOURCE_COUNT as nat, |r: int| 0usize),
        total: Seq::new(RESOURCE_COUNT as nat, |r: int| 0usize),
        finished: 0,
        safe: Seq::empty(),
    }
}

impl TableModel {
    pub open spec fn wf(self) -> bool {
        &&& self.safe.len() == self.data.len()
        &&& self.finished <= self.data.len()
        &&& self.available.len() == RESOURCE_COUNT
        &&& self.total.len() == RESOURCE_COUNT
    }

    /// Position in `data` of the process that the next step finishes.
    pub open spec fn next_to_finish(self) -> Option<int> {
        if self.finished >= self.data.len() {
            None
        } else {
            find_id(self.data, self.safe[self.finished as int].id)
        }
    }

    /// The table after one step of the run.
    pub open spec fn stepped(self) -> TableModel {
        match self.next_to_finish() {
            None => self,
            Some(k) => TableModel {
                data: self.data.update(k, finished(self.data[k])),
                available: released_by(self.available, self.data[k]),
                total: self.total,
                finished: self.finished + 1,
                safe: self.safe,
            },
        }
    }

    /// The next step adds what it releases without leaving `usize`.
    pub open spec fn step_fits(self) -> bool {
        match self.next_to_finish() {
            None => true,
            Some(k) => forall|r: int|
                0 <= r < RESOURCE_COUNT ==> self.available[r] + self.data[k].allocation@[r]
                    <= usize::MAX,
        }
    }

    /// The entry that admitting `p` adds.
    pub open spec fn admitted(self, p: Proc) -> Data {
        Data {
            id: self.data.len() as usize,
            name: p.name,
            allocation: p.allocation,
            max: p.max,
            need: p.need,
            finish: false,
        }
    }

    /// `p` holds more of some resource than is available.
    pub open spec fn lacks_resources(self, p: Proc) -> bool {
        exists|r: int| 0 <= r < RESOURCE_COUNT && p.allocation@[r] > self.available[r]
    }

    /// What remains available once `p` has taken its allocation.
    pub open spec fn after_allocation(self, p: Proc) -> Seq<usize> {
        Seq::new(RESOURCE_COUNT as nat, |r: int| (self.available[r] - p.allocation@[r]) as usize)
    }

    /// Admitting `p` keeps the system in a safe state.
    pub open spec fn stays_safe_with(self, p: Proc) -> bool {
        is_safe_state(self.safe.push(self.admitted(p)), self.after_allocation(p))
    }

    /// Some process of `procs` has id `id`.
    pub open spec fn has_id(procs: Seq<Data>, id: usize) -> bool {
        exists|k: int| 0 <= k < procs.len() && #[trigger] procs[k].id == id
    }

    /// The ids of the processes are `0..n`, each once, the safe sequence holds
    /// the same ids, each once, and the run has not passed its end.
    pub open spec fn bookkept(self) -> bool {
        let n = self.data.len();
        &&& self.wf()
        &&& forall|i: int| 0 <= i < n ==> #[trigger] self.data[i].id < n
        &&& distinct_ids(self.data)
        &&& distinct_ids(self.safe)
        &&& forall|i: int| 0 <= i < n ==> Self::has_id(self.safe, #[trigger] self.data[i].id)
        &&& forall|j: int| 0 <= j < n ==> Self::has_id(self.data, #[trigger] self.safe[j].id)
    }

    /// A process is marked finished exactly when the run has passed its place
    /// in the safe sequence.
    pub open spec fn flags_follow_run(self) -> bool {
        forall|i: int|
            0 <= i < self.data.len() ==> (#[trigger] self.data[i].finish <==> exists|j: int|
                0 <= j < self.finished && self.safe[j].id == self.data[i].id)
    }

    /// Some process of `data` has the id of `d` and holds and needs what `d` does.
    pub open spec fn has_entry_like(self, d: Data) -> bool {
        exists|k: int|
            0 <= k < self.data.len() && #[trigger] self.data[k].id == d.id && self.data[k].allocation
                == d.allocation && self.data[k].need == d.need
    }

    /// The safe sequence passes through the process with id `id`.
    pub open spec fn runs_through(self, id: usize) -> bool {
        exists|j: int| 0 <= j < self.safe.len() && #[trigger] self.safe[j].id == id
    }

    /// The bookkeeping of a table that admissions and the steps of a run keep,
    /// as long as no admission comes in the middle of a run.
    pub open spec fn consistent(self) -> bool {
        let n = self.data.len();
        &&& self.wf()
        &&& n < usize::MAX
        &&& forall|i: int| 0 <= i < n ==> #[trigger] self.data[i].id < n
        &&& distinct_ids(self.data)
        &&& forall|j: int| 0 <= j < n ==> #[trigger] self.safe[j].id < n
        &&& distinct_ids(self.safe)
        &&& forall|j: int| 0 <= j < n ==> self.has_entry_like(#[trigger] self.safe[j])
        &&& forall|i: int| 0 <= i < n ==> self.runs_through(#[trigger] self.data[i].id)
        &&& forall|i: int|
            0 <= i < n ==> (#[trigger] self.data[i].finish <==> exists|j: int|
                0 <= j < self.finished && self.safe[j].id == self.data[i].id)
    }

    /// The run can go on: the bookkeeping holds and the part of the safe
    /// sequence not run yet is a safe order from what is available.
    pub open spec fn ready_to_run(self) -> bool {
        &&& self.consistent()
        &&& is_safe_order(self.safe.skip(self.finished as int), self.available)
    }

    /// `new` is this table with `p` admitted; its safe sequence is the order
    /// that the safety check left.
    pub open spec fn push_accepted(self, p: Proc, new: TableModel) -> bool {
        &&& new.data == self.data.push(self.admitted(p))
        &&& new.available == self.after_allocation(p)
        &&& new.total == self.total
        &&& new.finished == self.finished
        &&& new.safe.to_multiset() == self.safe.push(self.admitted(p)).to_multiset()
        &&& is_safe_order(new.safe, new.available)
        &&& checked_order(self.safe.push(self.admitted(p)), new.available, new.safe)
    }
}

/// The resource table: the admitted processes, the resources, and the safe
/// sequence along which a run finishes the processes.
pub struct Table {
    pub data: Vec<Data>,
    pub global_available: [usize; RESOURCE_COUNT],
    pub total_resources: [usize; RESOURCE_COUNT],
    pub finished_count: usize,
    pub safe_sequence: Vec<Data>,
}

impl View for Table {
    type V = TableModel;

    open spec fn view(&self) -> TableModel {
        TableModel {
            data: self.data@,
            available: self.global_available@,
            total: self.total_resources@,
            finished: self.finished_count as nat,
            safe: self.safe_sequence@,
        }
    }
}

/// Position of the first process of `procs` with id `id`.
fn find_position(procs: &Vec<Data>, id: usize) -> (res: Option<usize>)
    ensures
        match res {
            Some(k) => find_id(procs@, id) == Some(k as int),
            None => find_id(procs@, id) is None,
        },
{
    let n = procs.len();
    let mut j: usize = 0;
    while j < n
        invariant
            n == procs@.len(),
            j <= n,
            forall|i: int| 0 <= i < j ==> procs@[i].id != id,
        decreases n - j,
    {
        if procs[j].id == id {
            assert(is_first_with_id(procs@, id, j as int));
            let ghost k = choose|k: int| is_first_with_id(procs@, id, k);
            assert(k == j);
            return Some(j);
        }
        j = j + 1;
    }
    None
}

impl Table {
    pub fn new() -> (t: Self)
        ensures
            t@ =~= empty_table(),
    {
        Table {
            data: Vec::new(),
            global_available: [0, 0, 0, 0, 0, 0],
            total_resources: [0, 0, 0, 0, 0, 0],
            finished_count: 0,
            safe_sequence: Vec::new(),
        }
    }

    pub fn reset(&mut self)
        ensures
            final(self)@ =~= empty_table(),
    {
        *self = Self::new();
    }

    /// Finishes the next process of the safe sequence and takes back what it holds.
    pub fn step(&mut self)
        requires
            old(self)@.wf(),
            old(self)@.step_fits(),
        ensures
            final(self)@ =~= old(self)@.stepped(),
    {
        if self.finished_count == self.data.len() {
            return ;
        }
        let target = self.safe_sequence[self.finished_count].id;
        match find_position(&self.data, target) {
            Some(k) => {
                let ghost before = self@;
                self.data[k].finish = true;
                self.finished_count = self.finished_count + 1;
                let mut r: usize = 0;
                while r < RESOURCE_COUNT
                    invariant
                        r <= RESOURCE_COUNT,
                        k < self.data@.len(),
                        before.step_fits(),
                        before.wf(),
                        before.next_to_finish() == Some(k as int),
                        self.data@ == before.data.update(k as int, finished(before.data[k as int])),
                        self.finished_count == before.finished + 1,
                        self.safe_sequence@ == before.safe,
                        self.total_resources@ == before.total,
                        forall|q: int| 0 <= q < r ==> self.global_available@[q] == before.available[q] + before.data[k as int].allocation@[q],
                        forall|q: int| r <= q < RESOURCE_COUNT ==> self.global_available@[q] == before.available[q],
                    decreases RESOURCE_COUNT - r,
                {
                    assert(before.available[r as int] + before.data[k as int].allocation@[r as int] <= usize::MAX);
                    self.global_available[r] = self.global_available[r] + self.data[k].allocation[r];
                    r = r + 1;
                }
                assert(self.global_available@ =~= released_by(before.available, before.data[k as int]));
            },
            None => {},
        }
    }

    /// Sets the total resources, and makes them all available.
    pub fn modify_global_res(&mut self, res: [usize; RESOURCE_COUNT])
        ensures
            final(self)@ =~= (TableModel { available: res@, total: res@, ..old(self)@ }),
    {
        self.total_resources = res;
        self.global_available = res;
    }

    /// Whether the next step adds what it releases within `usize`.
    pub fn step_fits(&self) -> (b: bool)
        requires
            self@.wf(),
        ensures
            b == self@.step_fits(),
    {
        if self.finished_count == self.data.len() {
            return true;
        }
        let target = self.safe_sequence[self.finished_count].id;
        match find_position(&self.data, target) {
            Some(k) => {
                let mut r: usize = 0;
                while r < RESOURCE_COUNT
                    invariant
                        r <= RESOURCE_COUNT,
                        k < self.data@.len(),
                        self@.next_to_finish() == Some(k as int),
                        forall|q: int|
                            0 <= q < r ==> self.global_available@[q] + self.data@[k as int].allocation@[q]
                                <= usize::MAX,
                    decreases RESOURCE_COUNT - r,
                {
                    if self.global_available[r] > usize::MAX - self.data[k].allocation[r] {
                        assert(self@.available[r as int] + self@.data[k as int].allocation@[r as int]
                            > usize::MAX);
                        return false;
                    }
                    r = r + 1;
                }
                true
            },
            None => true,
        }
    }

    /// Admits `data` if the table has the resources it holds and the system
    /// stays safe with it; otherwise leaves the table as it was.
    pub fn push_proc(&mut self, data: Proc) -> (res: Result<(), PushError>)
        requires
            old(self)@.wf(),
        ensures
            final(self)@.wf(),
            match res {
                Ok(()) => {
                    &&& !old(self)@.lacks_resources(data)
                    &&& old(self)@.stays_safe_with(data)
                    &&& old(self)@.push_accepted(data, final(self)@)
                },
                Err(PushError::NotEnoughResources) => {
                    &&& old(self)@.lacks_resources(data)
                    &&& final(self)@ == old(self)@
                },
                Err(PushError::Deadlock) => {
                    &&& !old(self)@.lacks_resources(data)
                    &&& !old(self)@.stays_safe_with(data)
                    &&& final(self)@ == old(self)@
                },
            },
            (res == Err::<(), PushError>(PushError::NotEnoughResources)) <==> exists|r: int|
                0 <= r < RESOURCE_COUNT && data.allocation@[r] > old(self).global_available@[r],
            res is Ok ==> forall|r: int|
                0 <= r < RESOURCE_COUNT ==> #[trigger] data.allocation@[r]
                    <= old(self).global_available@[r] && final(self).global_available@[r]
                    + data.allocation@[r] == old(self).global_available@[r],
            res is Ok ==> final(self).data@ == old(self).data@.push(old(self)@.admitted(data)),
            res is Err ==> final(self).data@ == old(self).data@ && final(self).global_available
                == old(self).global_available,
            res is Ok ==> {
                let e = final(self).data@[old(self).data@.len() as int];
                &&& final(self).data@.len() == old(self).data@.len() + 1
                &&& e.id == old(self).data@.len()
                &&& e.name == data.name
                &&& e.allocation == data.allocation
                &&& e.max == data.max
                &&& e.need == data.need
                &&& !e.finish
            },
    {
        let ghost m = self@;
        let mut i: usize = 0;
        while i < RESOURCE_COUNT
            invariant
                i <= RESOURCE_COUNT,
                self@ == m,
                m.wf(),
                forall|r: int| 0 <= r < i ==> data.allocation@[r] <= m.available[r],
            decreases RESOURCE_COUNT - i,
        {
            if data.allocation[i] > self.global_available[i] {
                assert(data.allocation@[i as int] > m.available[i as int]);
                return Err(PushError::NotEnoughResources);
            }
            i = i + 1;
        }

        let mut cur: [usize; RESOURCE_COUNT] = [0, 0, 0, 0, 0, 0];
        let mut i: usize = 0;
        while i < RESOURCE_COUNT
            invariant
                i <= RESOURCE_COUNT,
                self@ == m,
                m.wf(),
                forall|r: int| 0 <= r < RESOURCE_COUNT ==> data.allocation@[r] <= m.available[r],
                forall|r: int| 0 <= r < i ==> cur@[r] == m.available[r] - data.allocation@[r],
            decreases RESOURCE_COUNT - i,
        {
            assert(data.allocation@[i as int] <= m.available[i as int]);
            cur[i] = self.global_available[i] - data.allocation[i];
            i = i + 1;
        }
        assert(cur@ =~= m.after_allocation(data));

        let entry = Data {
            id: self.data.len(),
            name: data.name,
            allocation: data.allocation,
            max: data.max,
            need: data.need,
            finish: false,
        };

        let mut safe = self.safe_sequence.clone();
        assert(safe@ =~= m.safe);
        safe.push(entry.clone());
        let ghost candidates = safe@;

        if check_safety(safe.as_mut_slice(), &cur) {
            assert(safe@.to_multiset().len() == safe@.len());
            assert(candidates.to_multiset().len() == candidates.len());
            self.safe_sequence = safe;
            self.global_available = cur;
            self.data.push(entry);
            Ok(())
        } else {
            Err(PushError::Deadlock)
        }
    }
}

} // verus!

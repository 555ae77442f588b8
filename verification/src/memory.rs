//! The array heap and the machine state around it.
//!
//! The heap is a slab of 32-bit arrays indexed by small dense ids. Freed
//! slots are recorded in a descending list, so that the smallest freed id is
//! reused first; id 0 holds the program.

use vstd::pervasive::unreached;
use vstd::prelude::*;

use crate::model::{
    dup0_heap, init_model, insert_desc, lemma_insert_desc_split, sorted_desc, zero_words,
    MachineModel,
};

verus! {

broadcast use vstd::array::group_array_axioms;

/// The indexed slab of arrays. A slot is either live (holding an array) or
/// freed; freed slot ids wait in `vacants`, largest first.
pub struct Arrays {
    arrays: Vec<Option<Vec<u32>>>,
    vacants: Vec<usize>,
}

impl Arrays {
    /// The slots, each `None` when freed.
    pub closed spec fn heap(&self) -> Seq<Option<Seq<u32>>> {
        Seq::new(
            self.arrays@.len(),
            |i: int|
                match self.arrays@[i] {
                    Some(v) => Some(v@),
                    None => None,
                },
        )
    }

    /// The freed slot ids, in strictly descending order.
    pub closed spec fn free_ids(&self) -> Seq<usize> {
        self.vacants@
    }

    /// The freed list holds, in strictly descending order and without id 0,
    /// exactly the ids of the freed slots.
    pub open spec fn wf(&self) -> bool {
        &&& sorted_desc(self.free_ids())
        &&& forall|k: int|
            0 <= k < self.free_ids().len() ==> 0 < #[trigger] self.free_ids()[k]
                < self.heap().len()
        &&& forall|i: usize|
            i < self.heap().len() ==> (#[trigger] self.heap()[i as int] is None
                <==> self.free_ids().contains(i))
    }

    /// An empty heap: no slots at all.
    pub fn new() -> (r: Self)
        ensures
            r.wf(),
            r.heap() == Seq::<Option<Seq<u32>>>::empty(),
            r.free_ids() == Seq::<usize>::empty(),
    {
        let r = Self { arrays: Vec::new(), vacants: Vec::new() };
        proof {
            assert(r.heap() =~= Seq::<Option<Seq<u32>>>::empty());
        }
        r
    }

    /// Store an array in a slot and return its id: the smallest freed id if
    /// any slot is free, else a fresh id one past the current slots.
    pub fn insert(&mut self, array: Vec<u32>) -> (id: usize)
        requires
            old(self).wf(),
        ensures
            final(self).wf(),
            old(self).free_ids().len() > 0 ==> {
                &&& id == old(self).free_ids().last()
                &&& final(self).heap() == old(self).heap().update(id as int, Some(array@))
                &&& final(self).free_ids() == old(self).free_ids().drop_last()
            },
            old(self).free_ids().len() == 0 ==> {
                &&& id == old(self).heap().len()
                &&& final(self).heap() == old(self).heap().push(Some(array@))
                &&& final(self).free_ids() == old(self).free_ids()
            },
    {
        let ghost prior = *self;
        let ghost av = array@;
        match self.vacants.pop() {
            Some(id) => {
                proof {
                    assert(prior.free_ids()[prior.free_ids().len() - 1] == id);
                    assert(prior.free_ids().contains(id));
                    assert(prior.heap()[id as int] is None);
                }
                self.arrays[id] = Some(array);
                proof {
                    assert(self.heap() =~= prior.heap().update(id as int, Some(av)));
                    lemma_reuse_keeps_wf(prior, *self, id, av);
                }
                id
            },
            None => {
                let id = self.arrays.len();
                self.arrays.push(Some(array));
                proof {
                    assert(self.heap() =~= prior.heap().push(Some(av)));
                    assert forall|i: usize|
                        i < self.heap().len() implies (#[trigger] self.heap()[i as int] is None
                        <==> self.free_ids().contains(i)) by {
                        if self.heap()[i as int] is None {
                            assert(i < prior.heap().len());
                            assert(prior.heap()[i as int] is None);
                        }
                        if self.free_ids().contains(i) {
                            let k = choose|k: int|
                                0 <= k < self.free_ids().len() && self.free_ids()[k] == i;
                            assert(0 <= k < prior.free_ids().len());
                        }
                    }
                }
                id
            },
        }
    }

    /// Release a live slot other than slot 0; its id becomes reusable.
    pub fn remove(&mut self, id: usize)
        requires
            old(self).wf(),
            id != 0,
            id < old(self).heap().len(),
            old(self).heap()[id as int] is Some,
        ensures
            final(self).wf(),
            final(self).heap() == old(self).heap().update(id as int, None),
            final(self).free_ids() == insert_desc(old(self).free_ids(), id),
    {
        let ghost prior = *self;
        self.arrays[id] = None;
        proof {
            assert(self.heap() =~= prior.heap().update(id as int, None));
        }
        let mut i: usize = 0;
        while i < self.vacants.len() && self.vacants[i] > id
            invariant
                i <= self.vacants.len(),
                forall|j: int| 0 <= j < i ==> #[trigger] self.vacants@[j] > id,
                self.vacants@ == prior.free_ids(),
                self.heap() == prior.heap().update(id as int, None),
            decreases self.vacants.len() - i,
        {
            i += 1;
        }
        proof {
            assert(!prior.free_ids().contains(id));
            if (i as int) < prior.free_ids().len() {
                if prior.free_ids()[i as int] == id {
                    assert(prior.free_ids().contains(id));
                }
            }
            lemma_insert_desc_split(prior.free_ids(), id, i as int);
        }
        self.vacants.insert(i, id);
        proof {
            lemma_remove_keeps_wf(prior, *self, id, i as int);
        }
    }

    /// Replace the contents of slot 0 by a copy of slot `id`; a no-op when
    /// `id` is 0.
    pub fn dup0(&mut self, id: usize)
        requires
            old(self).wf(),
            0 < old(self).heap().len(),
            old(self).heap()[0] is Some,
            id == 0 || (id < old(self).heap().len() && old(self).heap()[id as int] is Some),
        ensures
            final(self).wf(),
            final(self).heap() == dup0_heap(old(self).heap(), id),
            final(self).free_ids() == old(self).free_ids(),
    {
        let ghost prior = *self;
        if id == 0 {
            return ;
        }
        let copy = match &self.arrays[id] {
            Some(v) => copy_words(v),
            None => unreached(),
        };
        self.arrays[0] = Some(copy);
        proof {
            assert(self.heap() =~= dup0_heap(prior.heap(), id));
            assert forall|i: usize|
                i < self.heap().len() implies (#[trigger] self.heap()[i as int] is None
                <==> self.free_ids().contains(i)) by {
                assert(self.heap()[i as int] is None <==> prior.heap()[i as int] is None);
            }
        }
    }

    /// The number of slots, live and freed together.
    pub fn slot_count(&self) -> (n: usize)
        ensures
            n == self.heap().len(),
    {
        self.arrays.len()
    }

    /// Whether slot `id` currently holds an array.
    pub fn is_live(&self, id: usize) -> (r: bool)
        requires
            id < self.heap().len(),
        ensures
            r == (self.heap()[id as int] is Some),
    {
        self.arrays[id].is_some()
    }

    /// The length of the array in a live slot.
    pub fn array_len(&self, id: usize) -> (n: usize)
        requires
            id < self.heap().len(),
            self.heap()[id as int] is Some,
        ensures
            n == self.heap()[id as int].unwrap().len(),
    {
        match &self.arrays[id] {
            Some(v) => v.len(),
            None => unreached(),
        }
    }

    /// The word at `(id, off)` in a live slot.
    pub fn get(&self, id: usize, off: usize) -> (w: u32)
        requires
            id < self.heap().len(),
            self.heap()[id as int] is Some,
            off < self.heap()[id as int].unwrap().len(),
        ensures
            w == self.heap()[id as int].unwrap()[off as int],
    {
        match &self.arrays[id] {
            Some(v) => v[off],
            None => unreached(),
        }
    }

    /// Overwrite the word at `(id, off)` in a live slot.
    pub fn set_word(&mut self, id: usize, off: usize, value: u32)
        requires
            old(self).wf(),
            id < old(self).heap().len(),
            old(self).heap()[id as int] is Some,
            off < old(self).heap()[id as int].unwrap().len(),
        ensures
            final(self).wf(),
            final(self).heap() == old(self).heap().update(
                id as int,
                Some(old(self).heap()[id as int].unwrap().update(off as int, value)),
            ),
            final(self).free_ids() == old(self).free_ids(),
    {
        let ghost prior = *self;
        match &mut self.arrays[id] {
            Some(v) => {
                v[off] = value;
            },
            None => {
                proof {
                    assert(false);
                }
            },
        }
        proof {
            assert(self.heap() =~= prior.heap().update(
                id as int,
                Some(prior.heap()[id as int].unwrap().update(off as int, value)),
            ));
            assert forall|i: usize|
                i < self.heap().len() implies (#[trigger] self.heap()[i as int] is None
                <==> self.free_ids().contains(i)) by {
                assert(self.heap()[i as int] is None <==> prior.heap()[i as int] is None);
            }
        }
    }
}

proof fn lemma_reuse_keeps_wf(prior: Arrays, cur: Arrays, id: usize, av: Seq<u32>)
    requires
        prior.wf(),
        prior.free_ids().len() > 0,
        id == prior.free_ids().last(),
        cur.heap() == prior.heap().update(id as int, Some(av)),
        cur.free_ids() == prior.free_ids().drop_last(),
    ensures
        cur.wf(),
{
    let last = prior.free_ids().len() - 1;
    assert forall|i: int, j: int|
        0 <= i < j < cur.free_ids().len() implies #[trigger] cur.free_ids()[i]
        > #[trigger] cur.free_ids()[j] by {
        assert(cur.free_ids()[i] == prior.free_ids()[i]);
        assert(cur.free_ids()[j] == prior.free_ids()[j]);
    }
    assert forall|k: int|
        0 <= k < cur.free_ids().len() implies 0 < #[trigger] cur.free_ids()[k]
        < cur.heap().len() by {
        assert(cur.free_ids()[k] == prior.free_ids()[k]);
    }
    assert forall|i: usize|
        i < cur.heap().len() implies (#[trigger] cur.heap()[i as int] is None
        <==> cur.free_ids().contains(i)) by {
        if i == id {
            if cur.free_ids().contains(i) {
                let k = choose|k: int| 0 <= k < cur.free_ids().len() && cur.free_ids()[k] == i;
                assert(prior.free_ids()[k] == id);
                assert(prior.free_ids()[k] > prior.free_ids()[last]);
            }
        } else {
            if cur.heap()[i as int] is None {
                assert(prior.heap()[i as int] is None);
                let k = choose|k: int|
                    0 <= k < prior.free_ids().len() && prior.free_ids()[k] == i;
                assert(k != last);
                assert(cur.free_ids()[k] == i);
            }
            if cur.free_ids().contains(i) {
                let k = choose|k: int| 0 <= k < cur.free_ids().len() && cur.free_ids()[k] == i;
                assert(prior.free_ids()[k] == i);
                assert(prior.heap()[i as int] is None);
            }
        }
    }
}

proof fn lemma_remove_keeps_wf(prior: Arrays, cur: Arrays, id: usize, k: int)
    requires
        prior.wf(),
        id != 0,
        id < prior.heap().len(),
        prior.heap()[id as int] is Some,
        0 <= k <= prior.free_ids().len(),
        forall|j: int| 0 <= j < k ==> #[trigger] prior.free_ids()[j] > id,
        k < prior.free_ids().len() ==> prior.free_ids()[k] < id,
        cur.heap() == prior.heap().update(id as int, None),
        cur.free_ids() == prior.free_ids().insert(k, id),
    ensures
        cur.wf(),
{
    let s = prior.free_ids();
    let t = cur.free_ids();
    assert(t.len() == s.len() + 1);
    assert forall|j: int| 0 <= j < t.len() implies #[trigger] t[j] == spliced(s, k, id, j) by {
        s.insert_ensures(k, id);
    }
    assert forall|i: int, j: int| 0 <= i < j < t.len() implies #[trigger] t[i] > #[trigger] t[j] by {
        s.insert_ensures(k, id);
    }
    assert forall|kk: int| 0 <= kk < t.len() implies 0 < #[trigger] t[kk] < cur.heap().len() by {
        s.insert_ensures(k, id);
    }
    assert forall|i: usize|
        i < cur.heap().len() implies (#[trigger] cur.heap()[i as int] is None <==> t.contains(
        i,
    )) by {
        s.insert_ensures(k, id);
        if i == id {
            assert(t[k] == id);
        } else {
            if cur.heap()[i as int] is None {
                assert(prior.heap()[i as int] is None);
                let j = choose|j: int| 0 <= j < s.len() && s[j] == i;
                if j < k {
                    assert(t[j] == i);
                } else {
                    assert(t[j + 1] == i);
                }
            }
            if t.contains(i) {
                let j = choose|j: int| 0 <= j < t.len() && t[j] == i;
                if j < k {
                    assert(s[j] == i);
                } else {
                    assert(j != k);
                    assert(s[j - 1] == i);
                }
                assert(prior.heap()[i as int] is None);
            }
        }
    }
}

/// The value at index `j` of `s` with `id` spliced in at position `k`.
spec fn spliced(s: Seq<usize>, k: int, id: usize, j: int) -> usize {
    if j < k {
        s[j]
    } else if j == k {
        id
    } else {
        s[j - 1]
    }
}

/// A fresh copy of a word array.
fn copy_words(v: &Vec<u32>) -> (r: Vec<u32>)
    ensures
        r@ == v@,
{
    let mut r: Vec<u32> = Vec::new();
    let mut i: usize = 0;
    while i < v.len()
        invariant
            i <= v.len(),
            r@.len() == i,
            forall|j: int| 0 <= j < i ==> #[trigger] r@[j] == v@[j],
        decreases v.len() - i,
    {
        r.push(v[i]);
        i += 1;
    }
    proof {
        assert(r@ =~= v@);
    }
    r
}

/// A zeroed array of `n` words.
pub fn zeroed(n: usize) -> (v: Vec<u32>)
    ensures
        v@ == zero_words(n as nat),
{
    let mut v: Vec<u32> = Vec::new();
    let mut i: usize = 0;
    while i < n
        invariant
            i <= n,
            v@.len() == i,
            forall|j: int| 0 <= j < i ==> #[trigger] v@[j] == 0u32,
        decreases n - i,
    {
        v.push(0);
        i += 1;
    }
    proof {
        assert(v@ =~= zero_words(n as nat));
    }
    v
}

/// How a machine talks to the world: the process streams, or in-memory
/// buffers handed in by the caller.
pub enum Port {
    /// Read from standard input, write to standard output.
    Console,
    /// Read successive bytes of `input`; collect written bytes in `output`.
    Buffered { input: Vec<u8>, cursor: usize, output: Vec<u8> },
}

/// The input buffer of a port; empty for the console, whose bytes come from
/// the stream.
pub open spec fn port_input(p: Port) -> Seq<u8> {
    match p {
        Port::Console => Seq::empty(),
        Port::Buffered { input, cursor, output } => input@,
    }
}

/// How many buffered input bytes have been read; 0 for the console.
pub open spec fn port_cursor(p: Port) -> int {
    match p {
        Port::Console => 0,
        Port::Buffered { input, cursor, output } => cursor as int,
    }
}

/// What a buffered read returns: the byte under the cursor, or `None` once
/// the input is spent.
pub open spec fn buffered_read(input: Seq<u8>, cur: int) -> Option<u8> {
    if 0 <= cur < input.len() {
        Some(input[cur])
    } else {
        None
    }
}

/// Where the cursor stands after a buffered read.
pub open spec fn next_cursor(input: Seq<u8>, cur: int) -> int {
    if 0 <= cur < input.len() {
        cur + 1
    } else {
        cur
    }
}

/// The machine state: eight registers, the array heap, the port, and a ghost
/// record of every byte written.
pub struct Memory {
    pub regs: [u32; 8],
    pub arrays: Arrays,
    pub port: Port,
    pub written: Ghost<Seq<u8>>,
}

impl View for Memory {
    type V = MachineModel;

    open spec fn view(&self) -> MachineModel {
        MachineModel {
            regs: self.regs@,
            heap: self.arrays.heap(),
            free: self.arrays.free_ids(),
            output: self.written@,
        }
    }
}

impl Memory {
    /// The heap is well formed, slot 0 is live, and a buffered port's output
    /// matches the ghost record of written bytes.
    pub open spec fn wf(&self) -> bool {
        &&& self.arrays.wf()
        &&& 0 < self.arrays.heap().len()
        &&& self.arrays.heap()[0] is Some
        &&& (self.port matches Port::Buffered { input, cursor, output } ==> cursor <= input.len()
            && output@ == self.written@)
    }

    /// A fresh machine on the process streams: registers zeroed, the program
    /// as array 0.
    pub fn new(program: Vec<u32>) -> (m: Memory)
        ensures
            m.wf(),
            m@ == init_model(program@),
            m.port is Console,
    {
        Self::with_port(program, Port::Console)
    }

    /// A fresh machine reading from and writing to in-memory buffers.
    pub fn buffered(program: Vec<u32>, input: Vec<u8>) -> (m: Memory)
        ensures
            m.wf(),
            m@ == init_model(program@),
            m.port matches Port::Buffered { input: i, cursor, output } && i@ == input@ && cursor
                == 0 && output@ == Seq::<u8>::empty(),
    {
        Self::with_port(program, Port::Buffered { input, cursor: 0, output: Vec::new() })
    }

    fn with_port(program: Vec<u32>, port: Port) -> (m: Memory)
        requires
            port matches Port::Buffered { input, cursor, output } ==> cursor == 0 && output@
                == Seq::<u8>::empty(),
        ensures
            m.wf(),
            m@ == init_model(program@),
            m.port == port,
    {
        let mut arrays = Arrays::new();
        let ghost program_view = program@;
        let id = arrays.insert(program);
        let m = Memory { regs: [0u32; 8], arrays, port, written: Ghost(Seq::empty()) };
        proof {
            assert(m.arrays.heap() =~= seq![Some(program_view)]);
            assert(m.regs@ =~= Seq::new(8, |i: int| 0u32));
            assert(m@ =~= init_model(program_view));
        }
        m
    }

    /// Read one byte through the port: `None` at end of input. On a buffered
    /// port the result is exactly the byte under the cursor, which advances.
    pub fn read_byte(&mut self) -> (r: Option<u8>)
        requires
            old(self).wf(),
        ensures
            final(self).wf(),
            final(self)@ == old(self)@,
            final(self).regs == old(self).regs,
            (final(self).port is Console) == (old(self).port is Console),
            old(self).port is Buffered ==> {
                &&& r == buffered_read(port_input(old(self).port), port_cursor(old(self).port))
                &&& port_input(final(self).port) == port_input(old(self).port)
                &&& port_cursor(final(self).port) == next_cursor(
                    port_input(old(self).port),
                    port_cursor(old(self).port),
                )
            },
    {
        match &mut self.port {
            Port::Console => {
                crate::io::flush_stdout();
                crate::io::read_byte_stdin()
            },
            Port::Buffered { input, cursor, output } => {
                if *cursor < input.len() {
                    let b = input[*cursor];
                    *cursor = *cursor + 1;
                    Some(b)
                } else {
                    None
                }
            },
        }
    }

    /// Write one byte through the port, recording it in the ghost output.
    pub fn write_byte(&mut self, b: u8)
        requires
            old(self).wf(),
        ensures
            final(self).wf(),
            final(self)@.regs == old(self)@.regs,
            final(self)@.heap == old(self)@.heap,
            final(self)@.free == old(self)@.free,
            final(self)@.output == old(self)@.output.push(b),
            final(self).regs == old(self).regs,
            (final(self).port is Console) == (old(self).port is Console),
            port_input(final(self).port) == port_input(old(self).port),
            port_cursor(final(self).port) == port_cursor(old(self).port),
    {
        match &mut self.port {
            Port::Console => crate::io::write_byte_stdout(b),
            Port::Buffered { output, .. } => output.push(b),
        }
        self.written = Ghost(self.written@.push(b));
    }

    /// The collected output of a buffered machine; empty for a console
    /// machine, whose output already went to standard output.
    pub fn take_output(self) -> (out: Vec<u8>)
        ensures
            (self.wf() && self.port matches Port::Buffered { .. }) ==> out@ == self@.output,
            self.port is Console ==> out@ == Seq::<u8>::empty(),
    {
        match self.port {
            Port::Buffered { output, .. } => output,
            Port::Console => Vec::new(),
        }
    }
}

} // verus!

//! The host's entity list: fixed-layout records linked by address, held here
//! as a table of records with the address of each.
//!
//! Coordinates are kept as the bit patterns of the host's 32-bit floats; the
//! arithmetic on them is supplied by the caller.

use vstd::prelude::*;

verus! {

/// Where the host keeps the address of the first record.
pub const ROOT_LOCATION: u32 = 0x0075_0708;

/// Size of one record in the host's memory.
pub const RECORD_SIZE: u32 = 0x1e0;

/// Offset of the extent field.
pub const EXTENT_OFFSET: u32 = 0x28;

/// Offset of the x coordinate.
pub const X_OFFSET: u32 = 0x40;

/// Offset of the y coordinate.
pub const Y_OFFSET: u32 = 0x44;

/// Offset of the link to the next record.
pub const NEXT_OFFSET: u32 = 0x1dc;

/// The link value that ends the list.
pub const NULL: u32 = 0;

/// Bit pattern of the distance by which a zero-extent record is nudged along
/// x: 50.0 as a 32-bit float.
pub const NUDGE_BITS: u32 = 0x4248_0000;

/// One record, field by field in layout order. The three byte ranges are
/// opaque and only ever carried along.
#[derive(Clone, Copy, Debug, PartialEq, Eq)]
pub struct Entity {
    pub head: [u8; 40],
    pub extent: u16,
    pub gap: [u8; 22],
    pub x_bits: u32,
    pub y_bits: u32,
    pub tail: [u8; 404],
    pub next: u32,
}

/// A record and the address it lives at.
#[derive(Clone, Copy, Debug, PartialEq, Eq)]
pub struct Slot {
    pub address: u32,
    pub entity: Entity,
}

/// What a traversal notes of one record.
#[derive(Clone, Copy, Debug, PartialEq, Eq)]
pub struct Sighting {
    pub address: u32,
    pub extent: u16,
    pub x_bits: u32,
    pub y_bits: u32,
}

/// The records known at some moment, and the address of the first of the list.
#[derive(Debug)]
pub struct EntityList {
    pub root: u32,
    pub slots: Vec<Slot>,
}

/// What following the links from a root has gathered: the records in list
/// order, and whether the null link was reached.
#[derive(Debug)]
pub struct Snapshot {
    pub list: EntityList,
    pub complete: bool,
}

/// A traversal stops advancing at a record that has no successor or whose
/// extent is zero.
pub open spec fn halts(e: Entity) -> bool {
    e.next == NULL || e.extent == 0
}

/// The record `e` with its x coordinate replaced.
pub open spec fn with_x(e: Entity, x_bits: u32) -> Entity {
    Entity { x_bits, ..e }
}

/// The record `e` with both coordinates replaced.
pub open spec fn with_position(e: Entity, x_bits: u32, y_bits: u32) -> Entity {
    Entity { x_bits, y_bits, ..e }
}

/// What a traversal notes of the record in `s`.
pub open spec fn sighting_of(s: Slot) -> Sighting {
    Sighting {
        address: s.address,
        extent: s.entity.extent,
        x_bits: s.entity.x_bits,
        y_bits: s.entity.y_bits,
    }
}

/// The first position from `from` on whose record lives at `addr`.
pub open spec fn first_at(slots: Seq<Slot>, addr: u32, from: int) -> Option<int>
    decreases slots.len() - from,
{
    if from < 0 || from >= slots.len() {
        None
    } else if slots[from].address == addr {
        Some(from)
    } else {
        first_at(slots, addr, from + 1)
    }
}

/// The positions of the records reached from `addr` by following links until
/// the null link, visiting at most `fuel` records; `None` where a link leads
/// to no known record or the null link is not reached in time.
pub open spec fn walk(slots: Seq<Slot>, addr: u32, fuel: nat) -> Option<Seq<int>>
    decreases fuel,
{
    if addr == NULL {
        Some(Seq::empty())
    } else if fuel == 0 {
        None
    } else {
        match first_at(slots, addr, 0) {
            None => None,
            Some(i) => match walk(slots, slots[i].entity.next, (fuel - 1) as nat) {
                None => None,
                Some(rest) => Some(seq![i] + rest),
            },
        }
    }
}

/// The position from `k` on, along `chain`, of the first record at which a
/// traversal halts.
pub open spec fn halt_rank(slots: Seq<Slot>, chain: Seq<int>, k: int) -> int
    decreases chain.len() - k,
{
    if k < 0 || k >= chain.len() {
        k
    } else if halts(slots[chain[k]].entity) {
        k
    } else {
        halt_rank(slots, chain, k + 1)
    }
}

/// The positions in `v` as mathematical integers.
pub open spec fn as_ints(v: Seq<usize>) -> Seq<int> {
    Seq::new(v.len(), |k: int| v[k] as int)
}

/// Two tables agree on where each record lives and on what it links to.
pub open spec fn same_links(a: Seq<Slot>, b: Seq<Slot>) -> bool {
    a.len() == b.len() && forall|i: int|
        0 <= i < a.len() ==> (#[trigger] a[i]).address == b[i].address && a[i].entity.next
            == b[i].entity.next
}

/// `slots` is linked from `root`: the first record lives at `root`, each
/// other one where its predecessor's link points, and none at null.
pub open spec fn linked(slots: Seq<Slot>, root: u32) -> bool {
    &&& forall|k: int| 0 <= k < slots.len() ==> (#[trigger] slots[k]).address != NULL
    &&& (slots.len() > 0 ==> slots[0].address == root)
    &&& forall|k: int|
        0 <= k < slots.len() - 1 ==> (#[trigger] slots[k]).entity.next == slots[k + 1].address
}

/// The address that comes after the records of `slots`, linked from `root`.
pub open spec fn pending(slots: Seq<Slot>, root: u32) -> u32 {
    if slots.len() == 0 {
        root
    } else {
        slots.last().entity.next
    }
}

/// No two records live at the same address.
pub open spec fn distinct_addresses(slots: Seq<Slot>) -> bool {
    forall|i: int, j: int|
        0 <= i < slots.len() && 0 <= j < slots.len() && i != j ==> (#[trigger] slots[i]).address
            != (#[trigger] slots[j]).address
}

/// The positions `from`, `from + 1`, ... up to `to`.
pub open spec fn positions(from: int, to: int) -> Seq<int> {
    Seq::new((to - from) as nat, |k: int| from + k)
}

/// In linked records at distinct addresses that end in the null link, the
/// walk from any record visits that record and all that follow it, in order.
pub proof fn lemma_linked_walk(slots: Seq<Slot>, root: u32, from: int)
    requires
        linked(slots, root),
        distinct_addresses(slots),
        pending(slots, root) == NULL,
        0 <= from <= slots.len(),
    ensures
        walk(
            slots,
            if from < slots.len() {
                slots[from].address
            } else {
                NULL
            },
            (slots.len() - from) as nat,
        ) == Some(positions(from, slots.len() as int)),
    decreases slots.len() - from,
{
    if from < slots.len() {
        let addr = slots[from].address;
        lemma_first_at(slots, addr, 0);
        assert(first_at(slots, addr, 0) == Some(from));
        lemma_linked_walk(slots, root, from + 1);
        if from + 1 < slots.len() {
            assert(slots[from].entity.next == slots[from + 1].address);
        } else {
            assert(slots[from] == slots.last());
        }
        assert(seq![from] + positions(from + 1, slots.len() as int) =~= positions(
            from,
            slots.len() as int,
        ));
    } else {
        assert(positions(from, slots.len() as int) =~= Seq::<int>::empty());
    }
}

/// A complete snapshot of records at distinct addresses is a well-formed
/// list whose chain is the records in the order they were gathered.
pub proof fn lemma_complete_snapshot_is_well_formed(list: EntityList)
    requires
        list.root != NULL,
        linked(list.slots@, list.root),
        distinct_addresses(list.slots@),
        pending(list.slots@, list.root) == NULL,
    ensures
        list.well_formed(),
        list.chain() == positions(0, list.slots@.len() as int),
{
    lemma_linked_walk(list.slots@, list.root, 0);
}

pub proof fn lemma_first_at(slots: Seq<Slot>, addr: u32, from: int)
    requires
        0 <= from,
    ensures
        match first_at(slots, addr, from) {
            Some(i) => from <= i < slots.len() && slots[i].address == addr,
            None => forall|j: int| from <= j < slots.len() ==> (#[trigger] slots[j]).address != addr,
        },
    decreases slots.len() - from,
{
    if from < slots.len() && slots[from].address != addr {
        lemma_first_at(slots, addr, from + 1);
    }
}

proof fn lemma_first_at_frame(a: Seq<Slot>, b: Seq<Slot>, addr: u32, from: int)
    requires
        same_links(a, b),
        0 <= from,
    ensures
        first_at(a, addr, from) == first_at(b, addr, from),
    decreases a.len() - from,
{
    if from < a.len() {
        assert(a[from].address == b[from].address);
        if a[from].address != addr {
            lemma_first_at_frame(a, b, addr, from + 1);
        }
    }
}

/// A walk depends only on addresses and links.
pub proof fn lemma_walk_frame(a: Seq<Slot>, b: Seq<Slot>, addr: u32, fuel: nat)
    requires
        same_links(a, b),
    ensures
        walk(a, addr, fuel) == walk(b, addr, fuel),
    decreases fuel,
{
    if addr != NULL && fuel > 0 {
        lemma_first_at_frame(a, b, addr, 0);
        lemma_first_at(a, addr, 0);
        match first_at(a, addr, 0) {
            None => {},
            Some(i) => {
                assert(a[i].entity.next == b[i].entity.next);
                lemma_walk_frame(a, b, a[i].entity.next, (fuel - 1) as nat);
            },
        }
    }
}

/// A walk that ends is not changed by more fuel.
pub proof fn lemma_walk_fuel(slots: Seq<Slot>, addr: u32, fuel: nat, more: nat)
    requires
        fuel <= more,
        walk(slots, addr, fuel) is Some,
    ensures
        walk(slots, addr, more) == walk(slots, addr, fuel),
    decreases fuel,
{
    if addr != NULL {
        match first_at(slots, addr, 0) {
            None => {},
            Some(i) => {
                lemma_walk_fuel(slots, slots[i].entity.next, (fuel - 1) as nat, (more - 1) as nat);
            },
        }
    }
}

/// The shape of a walk that ends: it starts at the record at `addr`, each
/// member is the first record at its own address and links to the next
/// member, and the last member links to null.
pub proof fn lemma_walk_shape(slots: Seq<Slot>, addr: u32, fuel: nat)
    requires
        walk(slots, addr, fuel) is Some,
    ensures
        ({
            let s = walk(slots, addr, fuel).unwrap();
            &&& s.len() <= fuel
            &&& (addr != NULL ==> s.len() > 0 && slots[s[0]].address == addr)
            &&& (addr == NULL ==> s.len() == 0)
            &&& forall|k: int|
                0 <= k < s.len() ==> 0 <= #[trigger] s[k] < slots.len() && slots[s[k]].address
                    != NULL && first_at(slots, slots[s[k]].address, 0) == Some(s[k])
            &&& forall|k: int|
                0 <= k < s.len() - 1 ==> slots[#[trigger] s[k]].entity.next == slots[s[k
                    + 1]].address
            &&& (s.len() > 0 ==> slots[s.last()].entity.next == NULL)
        }),
    decreases fuel,
{
    if addr != NULL {
        lemma_first_at(slots, addr, 0);
        let i = first_at(slots, addr, 0).unwrap();
        let next = slots[i].entity.next;
        lemma_walk_shape(slots, next, (fuel - 1) as nat);
        let rest = walk(slots, next, (fuel - 1) as nat).unwrap();
        let s = walk(slots, addr, fuel).unwrap();
        assert(s =~= seq![i] + rest);
        assert forall|k: int| 0 <= k < s.len() implies 0 <= #[trigger] s[k] < slots.len()
            && slots[s[k]].address != NULL && first_at(slots, slots[s[k]].address, 0) == Some(
            s[k],
        ) by {
            if k > 0 {
                assert(s[k] == rest[k - 1]);
            }
        }
        assert forall|k: int| 0 <= k < s.len() - 1 implies slots[#[trigger] s[k]].entity.next
            == slots[s[k + 1]].address by {
            if k > 0 {
                assert(s[k] == rest[k - 1]);
                assert(s[k + 1] == rest[k]);
            } else {
                assert(s[1] == rest[0]);
            }
        }
        if rest.len() > 0 {
            assert(s.last() == rest.last());
        }
    }
}

/// The walk from a member of a walk is the rest of that walk.
pub proof fn lemma_walk_suffix(slots: Seq<Slot>, addr: u32, fuel: nat, k: int)
    requires
        walk(slots, addr, fuel) is Some,
        0 <= k < walk(slots, addr, fuel).unwrap().len(),
    ensures
        k <= fuel,
        walk(slots, slots[walk(slots, addr, fuel).unwrap()[k]].address, (fuel - k) as nat) == Some(
            walk(slots, addr, fuel).unwrap().skip(k),
        ),
    decreases k,
{
    lemma_walk_shape(slots, addr, fuel);
    let s = walk(slots, addr, fuel).unwrap();
    if k == 0 {
        assert(s.skip(0) =~= s);
    } else {
        let i = first_at(slots, addr, 0).unwrap();
        let next = slots[i].entity.next;
        let rest = walk(slots, next, (fuel - 1) as nat).unwrap();
        assert(s =~= seq![i] + rest);
        lemma_walk_suffix(slots, next, (fuel - 1) as nat, k - 1);
        assert(rest[k - 1] == s[k]);
        assert(rest.skip(k - 1) =~= s.skip(k));
    }
}

/// No record occurs twice in a walk that ends.
pub proof fn lemma_walk_distinct(slots: Seq<Slot>, addr: u32, fuel: nat, i: int, j: int)
    requires
        walk(slots, addr, fuel) is Some,
        0 <= i < j < walk(slots, addr, fuel).unwrap().len(),
    ensures
        walk(slots, addr, fuel).unwrap()[i] != walk(slots, addr, fuel).unwrap()[j],
{
    let s = walk(slots, addr, fuel).unwrap();
    if s[i] == s[j] {
        lemma_walk_suffix(slots, addr, fuel, i);
        lemma_walk_suffix(slots, addr, fuel, j);
        let a = slots[s[i]].address;
        lemma_walk_fuel(slots, a, (fuel - j) as nat, (fuel - i) as nat);
        assert(s.skip(i).len() != s.skip(j).len());
    }
}

/// `halt_rank` names the first member from `k` on at which a traversal halts:
/// no member before it halts, and it halts itself unless the chain ran out.
pub proof fn lemma_halt_rank_is_first(slots: Seq<Slot>, chain: Seq<int>, k: int)
    requires
        0 <= k <= chain.len(),
    ensures
        k <= halt_rank(slots, chain, k) <= chain.len(),
        halt_rank(slots, chain, k) < chain.len() ==> halts(
            slots[chain[halt_rank(slots, chain, k)]].entity,
        ),
        forall|j: int| k <= j < halt_rank(slots, chain, k) ==> !halts(slots[#[trigger] chain[j]].entity),
    decreases chain.len() - k,
{
    if k < chain.len() && !halts(slots[chain[k]].entity) {
        lemma_halt_rank_is_first(slots, chain, k + 1);
    }
}

/// In a well-formed list the player's record exists: it is a member of the
/// chain, a traversal halts at it, and at no member before it.
pub proof fn lemma_player_is_first_halt(list: EntityList)
    requires
        list.well_formed(),
    ensures
        0 <= halt_rank(list.slots@, list.chain(), 0) < list.chain().len(),
        list.on_chain(list.player_slot()),
        0 <= list.player_slot() < list.slots@.len(),
        halts(list.slots@[list.player_slot()].entity),
        forall|j: int|
            0 <= j < halt_rank(list.slots@, list.chain(), 0) ==> !halts(
                list.slots@[#[trigger] list.chain()[j]].entity,
            ),
{
    let slots = list.slots@;
    let chain = list.chain();
    lemma_walk_shape(slots, list.root, slots.len());
    lemma_halt_rank_is_first(slots, chain, 0);
    let r = halt_rank(slots, chain, 0);
    if r >= chain.len() {
        assert(halts(slots[chain[chain.len() - 1]].entity));
    }
    assert(chain[r] == list.player_slot());
}

/// A change that keeps every address and every link keeps the list well
/// formed, with the same chain.
pub proof fn lemma_same_links_same_chain(a: EntityList, b: EntityList)
    requires
        a.root == b.root,
        same_links(a.slots@, b.slots@),
    ensures
        a.well_formed() == b.well_formed(),
        a.well_formed() ==> a.chain() == b.chain(),
{
    lemma_walk_frame(a.slots@, b.slots@, a.root, a.slots@.len());
}

impl EntityList {
    /// The position of the record that lives at `addr`.
    pub open spec fn lookup(self, addr: u32) -> Option<int> {
        first_at(self.slots@, addr, 0)
    }

    /// The list is well formed when its root is not null and following the
    /// links from it reaches the null link through known records only.
    pub open spec fn well_formed(self) -> bool {
        self.root != NULL && walk(self.slots@, self.root, self.slots@.len()) is Some
    }

    /// The positions of the list's records, in list order.
    pub open spec fn chain(self) -> Seq<int> {
        walk(self.slots@, self.root, self.slots@.len()).unwrap()
    }

    /// The position of the player's record: the first along the list at which
    /// a traversal halts.
    pub open spec fn player_slot(self) -> int {
        self.chain()[halt_rank(self.slots@, self.chain(), 0)]
    }

    /// `i` is the position of a record of the list.
    pub open spec fn on_chain(self, i: int) -> bool {
        self.chain().contains(i)
    }

    /// Follows the links from `root`, reading each record through `read`,
    /// until the null link or until `limit` records are gathered.
    pub fn snapshot<R: Fn(u32) -> Entity>(root: u32, read: R, limit: usize) -> (r: Snapshot)
        requires
            forall|a: u32| a != NULL ==> #[trigger] read.requires((a,)),
        ensures
            r.list.root == root,
            linked(r.list.slots@, root),
            forall|k: int|
                0 <= k < r.list.slots@.len() ==> read.ensures(
                    ((#[trigger] r.list.slots@[k]).address,),
                    r.list.slots@[k].entity,
                ),
            r.complete == (pending(r.list.slots@, root) == NULL),
            r.list.slots@.len() <= limit,
            !r.complete ==> r.list.slots@.len() == limit,
    {
        let mut slots: Vec<Slot> = Vec::new();
        let mut address: u32 = root;
        while address != NULL && slots.len() < limit
            invariant
                linked(slots@, root),
                address == pending(slots@, root),
                slots@.len() <= limit,
                forall|a: u32| a != NULL ==> #[trigger] read.requires((a,)),
                forall|k: int|
                    0 <= k < slots@.len() ==> read.ensures(
                        ((#[trigger] slots@[k]).address,),
                        slots@[k].entity,
                    ),
            decreases limit - slots@.len(),
        {
            let entity: Entity = read(address);
            slots.push(Slot { address, entity });
            address = entity.next;
        }
        Snapshot { list: EntityList { root, slots }, complete: address == NULL }
    }

    /// Finds the record that lives at `addr`.
    pub fn find(&self, addr: u32) -> (r: Option<usize>)
        ensures
            match r {
                Some(i) => self.lookup(addr) == Some(i as int) && i < self.slots@.len(),
                None => self.lookup(addr) is None,
            },
    {
        let mut i: usize = 0;
        while i < self.slots.len()
            invariant
                i <= self.slots@.len(),
                first_at(self.slots@, addr, 0) == first_at(self.slots@, addr, i as int),
            decreases self.slots@.len() - i,
        {
            if self.slots[i].address == addr {
                return Some(i);
            }
            i = i + 1;
        }
        None
    }

    /// Follows the links from the root and returns the positions visited, or
    /// `None` where the list is not well formed.
    pub fn trace(&self) -> (r: Option<Vec<usize>>)
        ensures
            r is Some <==> self.well_formed(),
            r matches Some(v) ==> as_ints(v@) == self.chain(),
    {
        if self.root == NULL {
            return None;
        }
        let n: usize = self.slots.len();
        let mut out: Vec<usize> = Vec::new();
        let mut cur: u32 = self.root;
        let mut fuel: usize = n;
        assert(as_ints(out@) =~= Seq::<int>::empty());
        assert(walk(self.slots@, cur, fuel as nat) matches Some(rest) ==> as_ints(out@) + rest
            =~= rest);
        while cur != NULL
            invariant
                n == self.slots@.len(),
                fuel <= n,
                self.root != NULL,
                walk(self.slots@, self.root, n as nat) == match walk(
                    self.slots@,
                    cur,
                    fuel as nat,
                ) {
                    Some(rest) => Some(as_ints(out@) + rest),
                    None => None,
                },
            decreases fuel,
        {
            if fuel == 0 {
                return None;
            }
            match self.find(cur) {
                None => {
                    return None;
                },
                Some(i) => {
                    let ghost before = as_ints(out@);
                    let ghost next = self.slots@[i as int].entity.next;
                    out.push(i);
                    proof {
                        assert(as_ints(out@) =~= before.push(i as int));
                        match walk(self.slots@, next, (fuel - 1) as nat) {
                            Some(rest) => {
                                assert(as_ints(out@) + rest =~= before + (seq![i as int] + rest));
                            },
                            None => {},
                        }
                    }
                    cur = self.slots[i].entity.next;
                    fuel = fuel - 1;
                },
            }
        }
        assert(as_ints(out@) + Seq::<int>::empty() =~= as_ints(out@));
        Some(out)
    }

    /// Whether the list is well formed.
    pub fn is_well_formed(&self) -> (r: bool)
        ensures
            r == self.well_formed(),
    {
        self.trace().is_some()
    }

    /// The position of the player's record.
    pub fn locate_player(&self) -> (r: usize)
        requires
            self.well_formed(),
        ensures
            r == self.player_slot(),
            r < self.slots@.len(),
            self.on_chain(r as int),
            halts(self.slots@[r as int].entity),
    {
        let chain = self.trace().unwrap();
        proof {
            lemma_walk_shape(self.slots@, self.root, self.slots@.len());
        }
        let mut k: usize = 0;
        while k < chain.len() && !(self.slots[chain[k]].entity.next == NULL
            || self.slots[chain[k]].entity.extent == 0)
            invariant
                as_ints(chain@) == self.chain(),
                k < chain@.len(),
                self.chain().len() > 0,
                forall|j: int|
                    0 <= j < self.chain().len() ==> 0 <= #[trigger] self.chain()[j]
                        < self.slots@.len(),
                self.slots@[self.chain().last()].entity.next == NULL,
                halt_rank(self.slots@, self.chain(), 0) == halt_rank(
                    self.slots@,
                    self.chain(),
                    k as int,
                ),
            decreases chain@.len() - k,
        {
            assert(as_ints(chain@)[k as int] == chain@[k as int]);
            k = k + 1;
        }
        assert(as_ints(chain@)[k as int] == chain@[k as int]);
        chain[k]
    }

    /// Visits every record of the list in order. Each is noted as it is found;
    /// each zero-extent record then has its x coordinate replaced by what
    /// `nudge` makes of it and the fixed distance.
    pub fn for_each_entity<F: Fn(u32, u32) -> u32>(&mut self, nudge: F) -> (r: Vec<Sighting>)
        requires
            old(self).well_formed(),
            forall|x: u32| #[trigger] nudge.requires((x, NUDGE_BITS)),
        ensures
            final(self).root == old(self).root,
            same_links(old(self).slots@, final(self).slots@),
            final(self).well_formed(),
            final(self).chain() == old(self).chain(),
            r@.len() == old(self).chain().len(),
            forall|k: int|
                0 <= k < r@.len() ==> #[trigger] r@[k] == sighting_of(
                    old(self).slots@[old(self).chain()[k]],
                ),
            forall|i: int|
                0 <= i < old(self).slots@.len() ==> {
                    let before = #[trigger] old(self).slots@[i];
                    let after = final(self).slots@[i];
                    if old(self).on_chain(i) && before.entity.extent == 0 {
                        &&& after.address == before.address
                        &&& after.entity == with_x(before.entity, after.entity.x_bits)
                        &&& nudge.ensures((before.entity.x_bits, NUDGE_BITS), after.entity.x_bits)
                    } else {
                        after == before
                    }
                },
    {
        let chain = self.trace().unwrap();
        let ghost start = *self;
        let ghost links = start.chain();
        proof {
            lemma_walk_shape(start.slots@, start.root, start.slots@.len());
        }
        let mut seen: Vec<Sighting> = Vec::new();
        let mut k: usize = 0;
        while k < chain.len()
            invariant
                as_ints(chain@) == links,
                links == start.chain(),
                start.well_formed(),
                k <= chain@.len(),
                self.root == start.root,
                same_links(start.slots@, self.slots@),
                forall|j: int| 0 <= j < links.len() ==> 0 <= #[trigger] links[j] < start.slots@.len(),
                forall|x: u32| #[trigger] nudge.requires((x, NUDGE_BITS)),
                seen@.len() == k,
                forall|j: int|
                    0 <= j < k ==> #[trigger] seen@[j] == sighting_of(start.slots@[links[j]]),
                forall|i: int|
                    0 <= i < start.slots@.len() ==> {
                        let before = #[trigger] start.slots@[i];
                        let after = self.slots@[i];
                        if links.subrange(0, k as int).contains(i) && before.entity.extent == 0 {
                            &&& after.address == before.address
                            &&& after.entity == with_x(before.entity, after.entity.x_bits)
                            &&& nudge.ensures(
                                (before.entity.x_bits, NUDGE_BITS),
                                after.entity.x_bits,
                            )
                        } else {
                            after == before
                        }
                    },
            decreases chain@.len() - k,
        {
            let i: usize = chain[k];
            assert(as_ints(chain@)[k as int] == i as int);
            proof {
                assert(!links.subrange(0, k as int).contains(i as int)) by {
                    if links.subrange(0, k as int).contains(i as int) {
                        let visited = links.subrange(0, k as int);
                        let j = choose|j: int| 0 <= j < visited.len() && visited[j] == i as int;
                        lemma_walk_distinct(
                            start.slots@,
                            start.root,
                            start.slots@.len(),
                            j,
                            k as int,
                        );
                    }
                }
                assert(self.slots@[i as int] == start.slots@[i as int]);
            }
            let slot: Slot = self.slots[i];
            seen.push(
                Sighting {
                    address: slot.address,
                    extent: slot.entity.extent,
                    x_bits: slot.entity.x_bits,
                    y_bits: slot.entity.y_bits,
                },
            );
            let ghost prior = self.slots@;
            if slot.entity.extent == 0 {
                let moved: u32 = nudge(slot.entity.x_bits, NUDGE_BITS);
                let mut entity: Entity = slot.entity;
                entity.x_bits = moved;
                self.slots.set(i, Slot { address: slot.address, entity });
            }
            k = k + 1;
            proof {
                assert(links.subrange(0, k as int) =~= links.subrange(0, k - 1).push(i as int));
                assert forall|p: int| 0 <= p < start.slots@.len() implies ({
                    let before = #[trigger] start.slots@[p];
                    let after = self.slots@[p];
                    if links.subrange(0, k as int).contains(p) && before.entity.extent == 0 {
                        &&& after.address == before.address
                        &&& after.entity == with_x(before.entity, after.entity.x_bits)
                        &&& nudge.ensures((before.entity.x_bits, NUDGE_BITS), after.entity.x_bits)
                    } else {
                        after == before
                    }
                }) by {
                    if p == i as int {
                        assert(links.subrange(0, k as int)[k - 1] == p);
                    } else {
                        assert(self.slots@[p] == prior[p]);
                        let now = links.subrange(0, k as int);
                        let earlier = links.subrange(0, k - 1);
                        if now.contains(p) {
                            let q = choose|q: int| 0 <= q < now.len() && now[q] == p;
                            assert(earlier[q] == p);
                        }
                        if earlier.contains(p) {
                            let q = choose|q: int| 0 <= q < earlier.len() && earlier[q] == p;
                            assert(now[q] == p);
                        }
                    }
                }
            }
        }
        proof {
            assert(links.subrange(0, k as int) =~= links);
            lemma_walk_frame(start.slots@, self.slots@, start.root, start.slots@.len());
        }
        seen
    }
}

} // verus!

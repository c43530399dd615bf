//! The value model of structured fields: bare items, items, inner lists,
//! lists, and the two ordered key-unique maps (parameters and dictionaries).
//!
//! Values are plain, independently constructible types; no validation
//! happens at construction time. The parser only ever builds values that
//! satisfy the grammar, and the serializer re-checks every constraint when a
//! value was built directly by a caller.

use vstd::prelude::*;

verus! {

/// Mathematical model of a decimal: `(-1)^neg * mantissa / 10^scale`.
pub struct DecimalV {
    pub neg: bool,
    pub mantissa: nat,
    pub scale: nat,
}

/// Mathematical model of a bare item.
pub enum BareItemV {
    Integer(int),
    Decimal(DecimalV),
    String(Seq<char>),
    ByteSeq(Seq<u8>),
    Boolean(bool),
    Token(Seq<char>),
}

/// Mathematical model of an item: a bare item plus its ordered parameters.
pub struct ItemV {
    pub bare_item: BareItemV,
    pub params: Seq<(Seq<char>, BareItemV)>,
}

/// Mathematical model of an inner list.
pub struct InnerListV {
    pub items: Seq<ItemV>,
    pub params: Seq<(Seq<char>, BareItemV)>,
}

/// Mathematical model of a list or dictionary member.
pub enum ListEntryV {
    Item(ItemV),
    InnerList(InnerListV),
}

/// A decimal number held exactly: sign, integer mantissa and the count of
/// stored fractional digits, so that the value is
/// `(-1)^neg * mantissa / 10^scale`. More than 3 fractional digits may be
/// stored; serialization rounds to 3 using round-half-to-even.
#[derive(Debug, PartialEq, Clone)]
pub struct Decimal {
    pub neg: bool,
    pub mantissa: u64,
    pub scale: u32,
}

impl View for Decimal {
    type V = DecimalV;

    open spec fn view(&self) -> DecimalV {
        DecimalV { neg: self.neg, mantissa: self.mantissa as nat, scale: self.scale as nat }
    }
}

impl Decimal {
    /// The decimal `(-1)^neg * mantissa / 10^scale`.
    pub fn new(neg: bool, mantissa: u64, scale: u32) -> (r: Decimal)
        ensures
            r@ == (DecimalV { neg, mantissa: mantissa as nat, scale: scale as nat }),
    {
        Decimal { neg, mantissa, scale }
    }
}

/// Either an integer or a decimal number.
#[derive(Debug, PartialEq, Clone)]
pub enum Num {
    /// At most 12 integer digits and 3 fractional digits when serialized.
    Decimal(Decimal),
    /// Magnitude at most 999_999_999_999_999 (15 digits) when serialized.
    Integer(i64),
}

/// The value of an item or of a parameter.
#[derive(Debug, PartialEq, Clone)]
pub enum BareItem {
    /// Either an integer or a decimal.
    Number(Num),
    /// Printable-ASCII text, held unescaped.
    String(String),
    /// Arbitrary bytes; base64-encoded on the wire.
    ByteSeq(Vec<u8>),
    /// `?0` or `?1` on the wire.
    Boolean(bool),
    /// A bare identifier-like text.
    Token(String),
}

impl View for BareItem {
    type V = BareItemV;

    open spec fn view(&self) -> BareItemV {
        match self {
            BareItem::Number(Num::Integer(i)) => BareItemV::Integer(*i as int),
            BareItem::Number(Num::Decimal(d)) => BareItemV::Decimal(d@),
            BareItem::String(s) => BareItemV::String(s@),
            BareItem::ByteSeq(b) => BareItemV::ByteSeq(b@),
            BareItem::Boolean(b) => BareItemV::Boolean(*b),
            BareItem::Token(t) => BareItemV::Token(t@),
        }
    }
}

/// Position of the first entry with key `k` at or after `i`, or -1.
pub open spec fn map_find_from<V>(ps: Seq<(Seq<char>, V)>, k: Seq<char>, i: int) -> int
    decreases ps.len() - i when 0 <= i <= ps.len()
{
    if i >= ps.len() {
        -1
    } else if ps[i].0 == k {
        i
    } else {
        map_find_from(ps, k, i + 1)
    }
}

/// Position of the first entry with key `k`, or -1.
pub open spec fn map_find<V>(ps: Seq<(Seq<char>, V)>, k: Seq<char>) -> int {
    map_find_from(ps, k, 0)
}

/// Insertion with update-in-place semantics: a present key keeps its
/// position and gets the new value; an absent key is appended.
pub open spec fn map_insert<V>(ps: Seq<(Seq<char>, V)>, k: Seq<char>, v: V) -> Seq<
    (Seq<char>, V),
> {
    let j = map_find(ps, k);
    if j >= 0 {
        ps.update(j, (k, v))
    } else {
        ps.push((k, v))
    }
}

/// All keys distinct.
pub open spec fn map_keys_unique<V>(ps: Seq<(Seq<char>, V)>) -> bool {
    forall|i: int, j: int| 0 <= i < j < ps.len() ==> ps[i].0 != ps[j].0
}

pub proof fn lemma_map_find_from<V>(ps: Seq<(Seq<char>, V)>, k: Seq<char>, i: int)
    requires
        0 <= i <= ps.len(),
    ensures
        map_find_from(ps, k, i) == -1 || i <= map_find_from(ps, k, i) < ps.len(),
        map_find_from(ps, k, i) >= 0 ==> ps[map_find_from(ps, k, i)].0 == k,
        forall|m: int|
            i <= m < ps.len() && (map_find_from(ps, k, i) == -1 || m < map_find_from(ps, k, i))
                ==> ps[m].0 != k,
    decreases ps.len() - i,
{
    if i < ps.len() && ps[i].0 != k {
        lemma_map_find_from(ps, k, i + 1);
    }
}

/// Updating through `map_insert` never breaks key uniqueness, and the
/// position of an existing key never moves.
pub proof fn lemma_map_insert_unique<V>(ps: Seq<(Seq<char>, V)>, k: Seq<char>, v: V)
    requires
        map_keys_unique(ps),
    ensures
        map_keys_unique(map_insert(ps, k, v)),
        map_find(map_insert(ps, k, v), k) == if map_find(ps, k) >= 0 {
            map_find(ps, k)
        } else {
            ps.len() as int
        },
        map_insert(ps, k, v)[map_find(map_insert(ps, k, v), k)] == (k, v),
{
    lemma_map_find_from(ps, k, 0);
    let qs = map_insert(ps, k, v);
    let j = map_find(ps, k);
    if j >= 0 {
        assert forall|m: int| 0 <= m <= map_find(qs, k) implies qs[m].0 == k ==> m == j by {
            lemma_map_find_from(qs, k, 0);
        }
        lemma_map_find_from(qs, k, 0);
        assert(qs[j].0 == k);
    } else {
        lemma_map_find_from(qs, k, 0);
        assert(qs[ps.len() as int].0 == k);
    }
}

/// Ordered, key-unique parameters of an item or inner list. Re-inserting an
/// existing key updates its value in place without changing its position.
#[derive(Debug, PartialEq, Clone)]
pub struct Parameters {
    pub(crate) entries: Vec<(String, BareItem)>,
}

impl View for Parameters {
    type V = Seq<(Seq<char>, BareItemV)>;

    closed spec fn view(&self) -> Seq<(Seq<char>, BareItemV)> {
        Seq::new(self.entries@.len(), |i: int| (self.entries@[i].0@, self.entries@[i].1@))
    }
}

/// Relates a parameter map to the entries that hold it.
pub(crate) proof fn lemma_params_view(p: &Parameters)
    ensures
        p@.len() == p.entries@.len(),
        forall|i: int|
            0 <= i < p@.len() ==> p@[i] == (p.entries@[i].0@, p.entries@[i].1@),
{
}

impl Parameters {
    /// An empty parameter map.
    pub fn new() -> (r: Parameters)
        ensures
            r@ == Seq::<(Seq<char>, BareItemV)>::empty(),
    {
        let r = Parameters { entries: Vec::new() };
        proof {
            assert(r@ =~= Seq::<(Seq<char>, BareItemV)>::empty());
        }
        r
    }

    pub fn len(&self) -> (r: usize)
        ensures
            r == self@.len(),
    {
        self.entries.len()
    }

    pub fn is_empty(&self) -> (r: bool)
        ensures
            r == (self@.len() == 0),
    {
        self.entries.len() == 0
    }

    /// Inserts `value` under `key`: a present key keeps its position and
    /// gets the new value, an absent key is appended.
    pub fn insert(&mut self, key: String, value: BareItem)
        ensures
            final(self)@ == map_insert(old(self)@, key@, value@),
    {
        let ghost ps = self@;
        let mut j: usize = 0;
        loop
            invariant
                j <= self.entries@.len(),
                self@ == ps,
                map_find_from(ps, key@, 0) == map_find_from(ps, key@, j as int),
            ensures
                self@ == ps,
                j <= self.entries@.len(),
                if j < self.entries@.len() {
                    map_find(ps, key@) == j as int
                } else {
                    map_find(ps, key@) == -1
                },
            decreases self.entries@.len() - j,
        {
            if j < self.entries.len() {
                if self.entries[j].0 == key {
                    assert(ps[j as int].0 == key@);
                    assert(map_find_from(ps, key@, j as int) == j as int);
                    break ;
                }
                assert(ps[j as int].0 != key@);
                assert(map_find_from(ps, key@, j as int) == map_find_from(ps, key@, j + 1));
                j = j + 1;
            } else {
                assert(map_find_from(ps, key@, j as int) == -1);
                break ;
            }
        }
        if j < self.entries.len() {
            self.entries.set(j, (key, value));
            proof {
                assert(self@ =~= map_insert(ps, key@, value@));
            }
        } else {
            self.entries.push((key, value));
            proof {
                assert(self@ =~= map_insert(ps, key@, value@));
            }
        }
    }

    /// The value under `key`, if present.
    pub fn get(&self, key: &String) -> (r: Option<&BareItem>)
        ensures
            map_find(self@, key@) >= 0 ==> r is Some && r.unwrap()@ == self@[map_find(
                self@,
                key@,
            )].1,
            map_find(self@, key@) == -1 ==> r is None,
    {
        let ghost ps = self@;
        let mut j: usize = 0;
        loop
            invariant
                j <= self.entries@.len(),
                self@ == ps,
                map_find_from(ps, key@, 0) == map_find_from(ps, key@, j as int),
            ensures
                j <= self.entries@.len(),
                if j < self.entries@.len() {
                    map_find(ps, key@) == j as int
                } else {
                    map_find(ps, key@) == -1
                },
            decreases self.entries@.len() - j,
        {
            if j < self.entries.len() {
                if self.entries[j].0 == *key {
                    assert(ps[j as int].0 == key@);
                    break ;
                }
                assert(ps[j as int].0 != key@);
                j = j + 1;
            } else {
                break ;
            }
        }
        if j < self.entries.len() {
            Some(&self.entries[j].1)
        } else {
            None
        }
    }
}

/// An item: a bare item plus its parameters.
#[derive(Debug, PartialEq, Clone)]
pub struct Item {
    /// Value of the item.
    pub bare_item: BareItem,
    /// Associated parameters; can be empty.
    pub params: Parameters,
}

impl View for Item {
    type V = ItemV;

    open spec fn view(&self) -> ItemV {
        ItemV { bare_item: self.bare_item@, params: self.params@ }
    }
}

impl Item {
    /// A new item with empty parameters.
    pub fn new(bare_item: BareItem) -> (r: Item)
        ensures
            r@.bare_item == bare_item@,
            r@.params == Seq::<(Seq<char>, BareItemV)>::empty(),
    {
        Item { bare_item, params: Parameters::new() }
    }

    /// A new item with the given parameters.
    pub fn with_params(bare_item: BareItem, params: Parameters) -> (r: Item)
        ensures
            r@.bare_item == bare_item@,
            r@.params == params@,
    {
        Item { bare_item, params }
    }
}

/// An ordered sequence of items with its own parameters, used as a single
/// list or dictionary member.
#[derive(Debug, PartialEq, Clone)]
pub struct InnerList {
    /// The items of the inner list; can be empty.
    pub items: Vec<Item>,
    /// Associated parameters; can be empty.
    pub params: Parameters,
}

/// The model of a sequence of items.
pub open spec fn items_view(items: Seq<Item>) -> Seq<ItemV> {
    Seq::new(items.len(), |i: int| items[i]@)
}

impl View for InnerList {
    type V = InnerListV;

    open spec fn view(&self) -> InnerListV {
        InnerListV { items: items_view(self.items@), params: self.params@ }
    }
}

impl InnerList {
    /// A new inner list with empty parameters.
    pub fn new(items: Vec<Item>) -> (r: InnerList)
        ensures
            r@.items == items_view(items@),
            r@.params == Seq::<(Seq<char>, BareItemV)>::empty(),
    {
        InnerList { items, params: Parameters::new() }
    }

    /// A new inner list with the given parameters.
    pub fn with_params(items: Vec<Item>, params: Parameters) -> (r: InnerList)
        ensures
            r@.items == items_view(items@),
            r@.params == params@,
    {
        InnerList { items, params }
    }
}

/// A member of a list or a member-value of a dictionary.
#[derive(Debug, PartialEq, Clone)]
pub enum ListEntry {
    /// A member of item type.
    Item(Item),
    /// A member of inner-list type.
    InnerList(InnerList),
}

impl View for ListEntry {
    type V = ListEntryV;

    open spec fn view(&self) -> ListEntryV {
        match self {
            ListEntry::Item(i) => ListEntryV::Item(i@),
            ListEntry::InnerList(l) => ListEntryV::InnerList(l@),
        }
    }
}

/// A list: an ordered sequence of members.
pub type List = Vec<ListEntry>;

/// The model of a list.
pub open spec fn list_view(l: Seq<ListEntry>) -> Seq<ListEntryV> {
    Seq::new(l.len(), |i: int| l[i]@)
}

/// An ordered key-unique map from keys to members, with the same
/// update-in-place semantics as [`Parameters`].
#[derive(Debug, PartialEq, Clone)]
pub struct Dictionary {
    pub(crate) entries: Vec<(String, ListEntry)>,
}

impl View for Dictionary {
    type V = Seq<(Seq<char>, ListEntryV)>;

    closed spec fn view(&self) -> Seq<(Seq<char>, ListEntryV)> {
        Seq::new(self.entries@.len(), |i: int| (self.entries@[i].0@, self.entries@[i].1@))
    }
}

/// Relates a dictionary to the entries that hold it.
pub(crate) proof fn lemma_dictionary_view(d: &Dictionary)
    ensures
        d@.len() == d.entries@.len(),
        forall|i: int|
            0 <= i < d@.len() ==> d@[i] == (d.entries@[i].0@, d.entries@[i].1@),
{
}

impl Dictionary {
    /// An empty dictionary.
    pub fn new() -> (r: Dictionary)
        ensures
            r@ == Seq::<(Seq<char>, ListEntryV)>::empty(),
    {
        let r = Dictionary { entries: Vec::new() };
        proof {
            assert(r@ =~= Seq::<(Seq<char>, ListEntryV)>::empty());
        }
        r
    }

    pub fn len(&self) -> (r: usize)
        ensures
            r == self@.len(),
    {
        self.entries.len()
    }

    pub fn is_empty(&self) -> (r: bool)
        ensures
            r == (self@.len() == 0),
    {
        self.entries.len() == 0
    }

    /// Inserts `value` under `key`: a present key keeps its position and
    /// gets the new value, an absent key is appended.
    pub fn insert(&mut self, key: String, value: ListEntry)
        ensures
            final(self)@ == map_insert(old(self)@, key@, value@),
    {
        let ghost ps = self@;
        let mut j: usize = 0;
        loop
            invariant
                j <= self.entries@.len(),
                self@ == ps,
                map_find_from(ps, key@, 0) == map_find_from(ps, key@, j as int),
            ensures
                self@ == ps,
                j <= self.entries@.len(),
                if j < self.entries@.len() {
                    map_find(ps, key@) == j as int
                } else {
                    map_find(ps, key@) == -1
                },
            decreases self.entries@.len() - j,
        {
            if j < self.entries.len() {
                if self.entries[j].0 == key {
                    assert(ps[j as int].0 == key@);
                    assert(map_find_from(ps, key@, j as int) == j as int);
                    break ;
                }
                assert(ps[j as int].0 != key@);
                assert(map_find_from(ps, key@, j as int) == map_find_from(ps, key@, j + 1));
                j = j + 1;
            } else {
                assert(map_find_from(ps, key@, j as int) == -1);
                break ;
            }
        }
        if j < self.entries.len() {
            self.entries.set(j, (key, value));
            proof {
                assert(self@ =~= map_insert(ps, key@, value@));
            }
        } else {
            self.entries.push((key, value));
            proof {
                assert(self@ =~= map_insert(ps, key@, value@));
            }
        }
    }

    /// The member under `key`, if present.
    pub fn get(&self, key: &String) -> (r: Option<&ListEntry>)
        ensures
            map_find(self@, key@) >= 0 ==> r is Some && r.unwrap()@ == self@[map_find(
                self@,
                key@,
            )].1,
            map_find(self@, key@) == -1 ==> r is None,
    {
        let ghost ps = self@;
        let mut j: usize = 0;
        loop
            invariant
                j <= self.entries@.len(),
                self@ == ps,
                map_find_from(ps, key@, 0) == map_find_from(ps, key@, j as int),
            ensures
                j <= self.entries@.len(),
                if j < self.entries@.len() {
                    map_find(ps, key@) == j as int
                } else {
                    map_find(ps, key@) == -1
                },
            decreases self.entries@.len() - j,
        {
            if j < self.entries.len() {
                if self.entries[j].0 == *key {
                    assert(ps[j as int].0 == key@);
                    break ;
                }
                assert(ps[j as int].0 != key@);
                j = j + 1;
            } else {
                break ;
            }
        }
        if j < self.entries.len() {
            Some(&self.entries[j].1)
        } else {
            None
        }
    }
}

impl From<i64> for BareItem {
    fn from(v: i64) -> (r: BareItem) {
        BareItem::Number(Num::Integer(v))
    }
}

impl vstd::std_specs::convert::FromSpecImpl<i64> for BareItem {
    open spec fn obeys_from_spec() -> bool {
        true
    }

    open spec fn from_spec(v: i64) -> BareItem {
        BareItem::Number(Num::Integer(v))
    }
}

impl From<Decimal> for BareItem {
    fn from(v: Decimal) -> (r: BareItem) {
        BareItem::Number(Num::Decimal(v))
    }
}

impl vstd::std_specs::convert::FromSpecImpl<Decimal> for BareItem {
    open spec fn obeys_from_spec() -> bool {
        true
    }

    open spec fn from_spec(v: Decimal) -> BareItem {
        BareItem::Number(Num::Decimal(v))
    }
}

impl From<Item> for ListEntry {
    fn from(v: Item) -> (r: ListEntry) {
        ListEntry::Item(v)
    }
}

impl vstd::std_specs::convert::FromSpecImpl<Item> for ListEntry {
    open spec fn obeys_from_spec() -> bool {
        true
    }

    open spec fn from_spec(v: Item) -> ListEntry {
        ListEntry::Item(v)
    }
}

impl From<InnerList> for ListEntry {
    fn from(v: InnerList) -> (r: ListEntry) {
        ListEntry::InnerList(v)
    }
}

impl vstd::std_specs::convert::FromSpecImpl<InnerList> for ListEntry {
    open spec fn obeys_from_spec() -> bool {
        true
    }

    open spec fn from_spec(v: InnerList) -> ListEntry {
        ListEntry::InnerList(v)
    }
}

} // verus!

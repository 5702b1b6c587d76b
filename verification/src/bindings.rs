use vstd::prelude::*;

use crate::keymap::{key_sequence_of, parse_key_sequence, KeyEvent};
use crate::regions::{region_name, Region};
use crate::signal::{bindable_signal, Signal};
use crate::text::{chars_of, str_eq, string_of, trim_chars, trimmed};

verus! {

/// One key binding as a KDL node gives it: the node's name as written, and
/// the text of each of its entries, in order.
pub type RawBind = (String, Vec<String>);

/// One region block as a KDL node gives it: the node's name and its child
/// nodes as bindings.
pub type RawBlock = (String, Vec<RawBind>);

/// The first of some entries, if there is one.
pub open spec fn first_entry(es: Seq<Seq<char>>) -> Option<Seq<char>> {
    if es.len() > 0 {
        Some(es[0])
    } else {
        None
    }
}

/// The text of a binding as the keymap reads it: its name, and its first
/// entry, if it has one.
pub open spec fn bind_text(b: RawBind) -> (Seq<char>, Option<Seq<char>>) {
    (b.0@, first_entry(b.1@.map_values(|e: String| e@)))
}

/// The text of a region block as the keymap reads it.
pub open spec fn block_text(b: RawBlock) -> (Seq<char>, Seq<(Seq<char>, Option<Seq<char>>)>) {
    (b.0@, b.1@.map_values(|r: RawBind| bind_text(r)))
}

/// The text of a binding: its name and all its entries.
pub open spec fn raw_bind_text(b: RawBind) -> (Seq<char>, Seq<Seq<char>>) {
    (b.0@, b.1@.map_values(|e: String| e@))
}

/// The text of a region block, with all the entries of its bindings.
pub open spec fn raw_block_text(b: RawBlock) -> (Seq<char>, Seq<(Seq<char>, Seq<Seq<char>>)>) {
    (b.0@, b.1@.map_values(|r: RawBind| raw_bind_text(r)))
}

/// The text of the blocks under a node, if the node has children.
pub open spec fn raw_blocks_text(r: Option<Option<Vec<RawBlock>>>) -> Option<
    Option<Seq<(Seq<char>, Seq<(Seq<char>, Seq<Seq<char>>)>)>>,
> {
    match r {
        None => None,
        Some(None) => Some(None),
        Some(Some(v)) => Some(Some(v@.map_values(|b: RawBlock| raw_block_text(b)))),
    }
}

/// Blocks as the keymap reads them: each binding with its first entry.
pub open spec fn entry_blocks(raw: Seq<(Seq<char>, Seq<(Seq<char>, Seq<Seq<char>>)>)>) -> Seq<
    (Seq<char>, Seq<(Seq<char>, Option<Seq<char>>)>),
> {
    raw.map_values(
        |b: (Seq<char>, Seq<(Seq<char>, Seq<Seq<char>>)>)|
            (b.0, b.1.map_values(|x: (Seq<char>, Seq<Seq<char>>)| (x.0, first_entry(x.1)))),
    )
}

/// What `kdl` makes of the first node named `node` of the KDL document
/// `text`: `None` when `text` is not KDL or has no such node, `Some(None)`
/// when the node has no children, else its children as blocks, each with
/// its own children and their entries as written.
pub uninterp spec fn kdl_node_children(text: Seq<char>, node: Seq<char>) -> Option<
    Option<Seq<(Seq<char>, Seq<(Seq<char>, Seq<Seq<char>>)>)>>,
>;

/// Parses `text` as a KDL document with `kdl` (`KdlDocument::from_str`),
/// takes its first node named `node` (`KdlDocument::get`) and lists the
/// nodes of that node's children (`KdlNode::children`): each one's name
/// (`KdlIdentifier::value`) with, for each of its own children
/// (`KdlNode::iter_children`), the name as written (`KdlIdentifier`'s
/// `Display`) and every entry as written (`KdlNode::entries`, `KdlEntry`'s
/// `Display`). The result depends on `text` and `node` alone and is named
/// `kdl_node_children`; nothing more is stated of it.
#[verifier::external_body]
fn kdl_node_blocks(text: &str, node: &str) -> (r: Option<Option<Vec<RawBlock>>>)
    ensures
        raw_blocks_text(r) == kdl_node_children(text@, node@),
{
    let doc: kdl::KdlDocument = text.parse().ok()?;
    let found = doc.get(node)?;
    Some(found.children().map(|children| {
        children.nodes().iter().map(|block| (
            block.name().value().to_string(),
            block.iter_children().map(|bind| (
                bind.name().to_string(),
                bind.entries().iter().map(|e| e.to_string()).collect(),
            )).collect(),
        )).collect()
    }))
}

/// Reading the blocks with the first entry of each binding agrees with
/// reading each binding's first entry.
proof fn lemma_entry_blocks(blocks: Seq<RawBlock>)
    ensures
        entry_blocks(blocks.map_values(|b: RawBlock| raw_block_text(b))) == blocks.map_values(
            |b: RawBlock| block_text(b),
        ),
{
    let raw = blocks.map_values(|b: RawBlock| raw_block_text(b));
    let lhs = entry_blocks(raw);
    let rhs = blocks.map_values(|b: RawBlock| block_text(b));
    assert forall|i: int| 0 <= i < blocks.len() implies lhs[i] == rhs[i] by {
        let b = blocks[i];
        let binds = raw[i].1;
        assert(binds == b.1@.map_values(|r: RawBind| raw_bind_text(r)));
        assert(binds.map_values(|x: (Seq<char>, Seq<Seq<char>>)| (x.0, first_entry(x.1)))
            =~= b.1@.map_values(|r: RawBind| bind_text(r)));
    }
    assert(lhs =~= rhs);
}

/// The keymap that the `keymap` node of the KDL document `text`
/// describes, if its blocks are valid.
pub open spec fn keymap_of_text(text: Seq<char>) -> Option<Seq<(Region, Seq<(Seq<KeyEvent>, Signal)>)>> {
    match kdl_node_children(text, "keymap"@) {
        Some(Some(raw)) => if blocks_valid(entry_blocks(raw)) {
            Some(keymap_of(entry_blocks(raw)))
        } else {
            None
        },
        _ => None,
    }
}

/// The keys and signal of a binding, read from its text: the key spec and
/// the signal name, each without surrounding white space.
pub open spec fn bind_of(b: (Seq<char>, Option<Seq<char>>)) -> (Seq<KeyEvent>, Signal) {
    (key_sequence_of(trimmed(b.0))->Ok_0, bindable_signal(trimmed(b.1->0))->0)
}

/// A binding that reads: it has an entry, its entry names a signal that
/// can be bound, and its name is a key spec.
pub open spec fn bind_valid(b: (Seq<char>, Option<Seq<char>>)) -> bool {
    &&& b.1 is Some
    &&& bindable_signal(trimmed(b.1->0)) is Some
    &&& key_sequence_of(trimmed(b.0)) is Ok
}

/// The first block named `name` at or after `from`.
pub open spec fn first_block(
    blocks: Seq<(Seq<char>, Seq<(Seq<char>, Option<Seq<char>>)>)>,
    name: Seq<char>,
    from: int,
) -> Option<int>
    decreases blocks.len() - from,
{
    if from < 0 || from >= blocks.len() {
        None
    } else if blocks[from].0 == name {
        Some(from)
    } else {
        first_block(blocks, name, from + 1)
    }
}

/// The bindings of the first block named as `r`, if there is one.
pub open spec fn region_binds(
    blocks: Seq<(Seq<char>, Seq<(Seq<char>, Option<Seq<char>>)>)>,
    r: Region,
) -> Option<Seq<(Seq<char>, Option<Seq<char>>)>> {
    match first_block(blocks, region_name(r), 0) {
        Some(i) => Some(blocks[i].1),
        None => None,
    }
}

/// Every binding of the block that region `r` reads, if any, is valid.
pub open spec fn region_valid(
    blocks: Seq<(Seq<char>, Seq<(Seq<char>, Option<Seq<char>>)>)>,
    r: Region,
) -> bool {
    match region_binds(blocks, r) {
        Some(bs) => forall|k: int| 0 <= k < bs.len() ==> bind_valid(#[trigger] bs[k]),
        None => true,
    }
}

/// Every binding of a block that a region reads is valid.
pub open spec fn blocks_valid(blocks: Seq<(Seq<char>, Seq<(Seq<char>, Option<Seq<char>>)>)>) -> bool {
    forall|r: Region| #[trigger] region_valid(blocks, r)
}

/// The bindings of a region, read from the text of its block.
pub open spec fn binds_of(bs: Seq<(Seq<char>, Option<Seq<char>>)>) -> Seq<(Seq<KeyEvent>, Signal)> {
    bs.map_values(|b: (Seq<char>, Option<Seq<char>>)| bind_of(b))
}

/// The keymap that region blocks describe: for each region, in the order
/// of `Region::all`, that has a block, its bindings in order.
pub open spec fn keymap_of(blocks: Seq<(Seq<char>, Seq<(Seq<char>, Option<Seq<char>>)>)>) -> Seq<
    (Region, Seq<(Seq<KeyEvent>, Signal)>),
> {
    let home = match region_binds(blocks, Region::Home) {
        Some(bs) => seq![(Region::Home, binds_of(bs))],
        None => Seq::empty(),
    };
    let zk = match region_binds(blocks, Region::Zk) {
        Some(bs) => seq![(Region::Zk, binds_of(bs))],
        None => Seq::empty(),
    };
    home + zk
}

/// The signal bound, in the bindings `bs`, to the keys `keys`: the last
/// binding of those keys wins.
pub open spec fn bound_signal(bs: Seq<(Seq<KeyEvent>, Signal)>, keys: Seq<KeyEvent>) -> Option<
    Signal,
>
    decreases bs.len(),
{
    if bs.len() == 0 {
        None
    } else if bs.last().0 == keys {
        Some(bs.last().1)
    } else {
        bound_signal(bs.drop_last(), keys)
    }
}

/// The key bindings of the application, region by region.
#[derive(Debug)]
pub struct KeyMap {
    regions: Vec<(Region, Vec<(Vec<KeyEvent>, Signal)>)>,
}

/// The bindings of a region as sequences.
pub open spec fn region_view(r: (Region, Vec<(Vec<KeyEvent>, Signal)>)) -> (Region, Seq<(Seq<KeyEvent>, Signal)>) {
    (r.0, r.1@.map_values(|b: (Vec<KeyEvent>, Signal)| (b.0@, b.1)))
}

impl View for KeyMap {
    type V = Seq<(Region, Seq<(Seq<KeyEvent>, Signal)>)>;

    closed spec fn view(&self) -> Seq<(Region, Seq<(Seq<KeyEvent>, Signal)>)> {
        self.regions@.map_values(|r: (Region, Vec<(Vec<KeyEvent>, Signal)>)| region_view(r))
    }
}

/// Every binding of the block that `region` reads is valid, when the
/// blocks are.
proof fn lemma_block_binds_valid(blocks: &Vec<RawBlock>, region: Region, k: int)
    requires
        blocks_valid(blocks@.map_values(|b: RawBlock| block_text(b))),
        first_block(blocks@.map_values(|b: RawBlock| block_text(b)), region_name(region), 0) == Some(k),
    ensures
        0 <= k < blocks@.len(),
        forall|j: int| 0 <= j < blocks@[k].1@.len() ==> bind_valid(#[trigger] bind_text(blocks@[k].1@[j])),
{
    let texts = blocks@.map_values(|b: RawBlock| block_text(b));
    lemma_first_block_bounds(texts, region_name(region), 0);
    assert(texts[k] == block_text(blocks@[k]));
    assert(region_binds(texts, region) == Some(texts[k].1));
    assert(region_valid(texts, region));
    let bs = texts[k].1;
    assert(bs == blocks@[k].1@.map_values(|r: RawBind| bind_text(r)));
    match region_binds(texts, region) {
        Some(b2) => {
            assert(b2 == bs);
            assert(forall|jj: int| 0 <= jj < b2.len() ==> bind_valid(#[trigger] b2[jj]));
        },
        None => {},
    }
    assert forall|j: int| 0 <= j < blocks@[k].1@.len() implies bind_valid(#[trigger] bind_text(blocks@[k].1@[j])) by {
        assert(bs[j] == bind_text(blocks@[k].1@[j]));
        assert(bind_valid(bs[j]));
    }
}

/// Where `first_block` finds a block, it lies within the blocks.
proof fn lemma_first_block_bounds(
    blocks: Seq<(Seq<char>, Seq<(Seq<char>, Option<Seq<char>>)>)>,
    name: Seq<char>,
    from: int,
)
    ensures
        first_block(blocks, name, from) matches Some(i) ==> from <= i < blocks.len() && blocks[i].0 == name,
    decreases blocks.len() - from,
{
    if !(from < 0 || from >= blocks.len()) {
        lemma_first_block_bounds(blocks, name, from + 1);
    }
}

/// Whether two key sequences are the same.
fn same_keys(a: &Vec<KeyEvent>, b: &Vec<KeyEvent>) -> (r: bool)
    ensures
        r == (a@ == b@),
{
    if a.len() != b.len() {
        return false;
    }
    let mut i: usize = 0;
    while i < a.len()
        invariant
            a@.len() == b@.len(),
            i <= a@.len(),
            forall|k: int| 0 <= k < i ==> a@[k] == b@[k],
        decreases a.len() - i,
    {
        if a[i] != b[i] {
            return false;
        }
        i = i + 1;
    }
    assert(a@ =~= b@);
    true
}

/// The first block named `name`.
fn find_block(blocks: &Vec<RawBlock>, name: &str) -> (r: Option<usize>)
    ensures
        match r {
            Some(i) => first_block(blocks@.map_values(|b: RawBlock| block_text(b)), name@, 0)
                == Some(i as int),
            None => first_block(blocks@.map_values(|b: RawBlock| block_text(b)), name@, 0) is None,
        },
{
    let ghost texts = blocks@.map_values(|b: RawBlock| block_text(b));
    let mut i: usize = 0;
    while i < blocks.len()
        invariant
            texts == blocks@.map_values(|b: RawBlock| block_text(b)),
            i <= blocks@.len(),
            first_block(texts, name@, 0) == first_block(texts, name@, i as int),
        decreases blocks.len() - i,
    {
        if str_eq(blocks[i].0.as_str(), name) {
            return Some(i);
        }
        i = i + 1;
    }
    None
}

/// The keys and signal of a valid binding.
fn read_bind(b: &RawBind) -> (r: (Vec<KeyEvent>, Signal))
    requires
        bind_valid(bind_text(*b)),
    ensures
        (r.0@, r.1) == bind_of(bind_text(*b)),
{
    let key = trim_chars(&chars_of(b.0.as_str()));
    let key_text = string_of(&key, 0, key.len());
    assert(key@.subrange(0, key@.len() as int) =~= key@);
    if b.1.len() == 0 {
        proof {
            assert(false);
        }
        return (Vec::new(), Signal::Quit);
    }
    let entry = &b.1[0];
    let name = trim_chars(&chars_of(entry.as_str()));
    let name_text = string_of(&name, 0, name.len());
    assert(name@.subrange(0, name@.len() as int) =~= name@);
    let keys = match parse_key_sequence(key_text.as_str()) {
        Ok(k) => k,
        Err(_) => {
            proof {
                assert(false);
            }
            return (Vec::new(), Signal::Quit);
        },
    };
    let signal = match Signal::bindable(name_text.as_str()) {
        Some(s) => s,
        None => {
            proof {
                assert(false);
            }
            return (Vec::new(), Signal::Quit);
        },
    };
    (keys, signal)
}

/// The bindings of a block whose bindings are all valid.
fn read_binds(bs: &Vec<RawBind>) -> (r: Vec<(Vec<KeyEvent>, Signal)>)
    requires
        forall|k: int| 0 <= k < bs@.len() ==> bind_valid(#[trigger] bind_text(bs@[k])),
    ensures
        r@.map_values(|b: (Vec<KeyEvent>, Signal)| (b.0@, b.1)) == binds_of(
            bs@.map_values(|r: RawBind| bind_text(r)),
        ),
{
    let ghost target = binds_of(bs@.map_values(|r: RawBind| bind_text(r)));
    let mut out: Vec<(Vec<KeyEvent>, Signal)> = Vec::new();
    let mut i: usize = 0;
    while i < bs.len()
        invariant
            i <= bs@.len(),
            target == binds_of(bs@.map_values(|r: RawBind| bind_text(r))),
            forall|k: int| 0 <= k < bs@.len() ==> bind_valid(#[trigger] bind_text(bs@[k])),
            out@.len() == i,
            forall|k: int|
                0 <= k < i ==> (#[trigger] out@[k].0@, out@[k].1) == target[k],
        decreases bs.len() - i,
    {
        let b = read_bind(&bs[i]);
        out.push(b);
        i = i + 1;
    }
    assert(out@.map_values(|b: (Vec<KeyEvent>, Signal)| (b.0@, b.1)) =~= target);
    out
}

impl KeyMap {
    /// The keymap that valid region blocks describe: for each region, in
    /// the order of `Region::all`, whose name some block has, the bindings
    /// of the first such block, in order.
    pub fn from_blocks(blocks: &Vec<RawBlock>) -> (m: KeyMap)
        requires
            blocks_valid(blocks@.map_values(|b: RawBlock| block_text(b))),
        ensures
            m@ == keymap_of(blocks@.map_values(|b: RawBlock| block_text(b))),
    {
        let ghost texts = blocks@.map_values(|b: RawBlock| block_text(b));
        let mut regions: Vec<(Region, Vec<(Vec<KeyEvent>, Signal)>)> = Vec::new();
        let ghost home = match region_binds(texts, Region::Home) {
            Some(bs) => seq![(Region::Home, binds_of(bs))],
            None => Seq::empty(),
        };
        match find_block(blocks, Region::Home.name()) {
            Some(k) => {
                proof {
                    lemma_block_binds_valid(blocks, Region::Home, k as int);
                }
                let binds = read_binds(&blocks[k].1);
                regions.push((Region::Home, binds));
            },
            None => {},
        }
        assert(regions@.map_values(|r: (Region, Vec<(Vec<KeyEvent>, Signal)>)| region_view(r)) =~= home);
        let ghost before = regions@;
        match find_block(blocks, Region::Zk.name()) {
            Some(k) => {
                proof {
                    lemma_block_binds_valid(blocks, Region::Zk, k as int);
                }
                let binds = read_binds(&blocks[k].1);
                regions.push((Region::Zk, binds));
                assert(regions@ =~= before.push((Region::Zk, binds)));
            },
            None => {},
        }
        assert(regions@.map_values(|r: (Region, Vec<(Vec<KeyEvent>, Signal)>)| region_view(r)) =~= keymap_of(texts));
        KeyMap { regions }
    }

    /// The keymap that the `keymap` node of the KDL document `text`
    /// describes, each binding read from its first entry: `None` when
    /// `text` is not KDL, has no `keymap` node, the node has no children,
    /// or a binding that a region reads is not valid.
    pub fn from_kdl(text: &str) -> (m: Option<KeyMap>)
        ensures
            match keymap_of_text(text@) {
                Some(v) => m matches Some(k) && k@ == v,
                None => m is None,
            },
    {
        let parsed = kdl_node_blocks(text, "keymap");
        let blocks = match parsed {
            Some(Some(b)) => b,
            _ => {
                return None;
            },
        };
        proof {
            lemma_entry_blocks(blocks@);
        }
        if !KeyMap::check_blocks(&blocks) {
            return None;
        }
        Some(KeyMap::from_blocks(&blocks))
    }

    /// Whether every binding that a region reads from `blocks` is valid.
    pub fn check_blocks(blocks: &Vec<RawBlock>) -> (ok: bool)
        ensures
            ok == blocks_valid(blocks@.map_values(|b: RawBlock| block_text(b))),
    {
        let home = KeyMap::region_ok(blocks, Region::Home);
        let zk = KeyMap::region_ok(blocks, Region::Zk);
        proof {
            let texts = blocks@.map_values(|b: RawBlock| block_text(b));
            if home && zk {
                assert forall|r: Region| #[trigger] region_valid(texts, r) by {
                    match r {
                        Region::Home => {},
                        Region::Zk => {},
                    }
                }
            }
        }
        home && zk
    }

    /// Whether every binding of the block of `region` is valid.
    fn region_ok(blocks: &Vec<RawBlock>, region: Region) -> (ok: bool)
        ensures
            ok == region_valid(blocks@.map_values(|b: RawBlock| block_text(b)), region),
    {
        let ghost texts = blocks@.map_values(|b: RawBlock| block_text(b));
        match find_block(blocks, region.name()) {
            Some(k) => {
                proof {
                    lemma_first_block_bounds(texts, region_name(region), 0);
                    assert(texts[k as int] == block_text(blocks@[k as int]));
                }
                let bs = &blocks[k].1;
                let ghost bst = texts[k as int].1;
                assert(bst == bs@.map_values(|r: RawBind| bind_text(r)));
                assert(region_binds(texts, region) == Some(bst));
                let mut j: usize = 0;
                while j < bs.len()
                    invariant
                        j <= bs@.len(),
                        bst == bs@.map_values(|r: RawBind| bind_text(r)),
                        region_binds(texts, region) == Some(bst),
                        texts == blocks@.map_values(|b: RawBlock| block_text(b)),
                        forall|t: int| 0 <= t < j ==> bind_valid(#[trigger] bst[t]),
                    decreases bs.len() - j,
                {
                    if !KeyMap::bind_ok(&bs[j]) {
                        assert(bst[j as int] == bind_text(bs@[j as int]));
                        assert(!bind_valid(bst[j as int]));
                        proof {
                            match region_binds(texts, region) {
                                Some(b2) => {
                                    assert(b2 == bst);
                                    assert(!bind_valid(b2[j as int]));
                                },
                                None => {},
                            }
                        }
                        return false;
                    }
                    j = j + 1;
                }
                true
            },
            None => true,
        }
    }

    /// Whether a binding is valid.
    fn bind_ok(b: &RawBind) -> (ok: bool)
        ensures
            ok == bind_valid(bind_text(*b)),
    {
        if b.1.len() == 0 {
            return false;
        }
        let entry = &b.1[0];
        let name = trim_chars(&chars_of(entry.as_str()));
        let name_text = string_of(&name, 0, name.len());
        assert(name@.subrange(0, name@.len() as int) =~= name@);
        if Signal::bindable(name_text.as_str()).is_none() {
            return false;
        }
        let key = trim_chars(&chars_of(b.0.as_str()));
        let key_text = string_of(&key, 0, key.len());
        assert(key@.subrange(0, key@.len() as int) =~= key@);
        parse_key_sequence(key_text.as_str()).is_ok()
    }

    /// The bindings of `region`, in the order they were given, if the
    /// keymap has the region.
    pub fn region(&self, region: Region) -> (r: Option<&Vec<(Vec<KeyEvent>, Signal)>>)
        ensures
            match r {
                Some(bs) => exists|i: int|
                    0 <= i < self@.len() && self@[i] == region_view((region, *bs)) && forall|t: int|
                        0 <= t < i ==> self@[t].0 != region,
                None => forall|i: int| 0 <= i < self@.len() ==> self@[i].0 != region,
            },
    {
        let mut i: usize = 0;
        assert(self@.len() == self.regions@.len());
        while i < self.regions.len()
            invariant
                i <= self.regions@.len(),
                self@.len() == self.regions@.len(),
                forall|t: int| 0 <= t < i ==> self@[t].0 != region,
            decreases self.regions.len() - i,
        {
            assert(self@[i as int] == region_view(self.regions@[i as int]));
            if self.regions[i].0 == region {
                assert(self@[i as int] == region_view((region, self.regions@[i as int].1)));
                return Some(&self.regions[i].1);
            }
            i = i + 1;
        }
        None
    }

    /// The signal bound in `region` to the keys `keys`, if any; of several
    /// bindings of the same keys, the last.
    pub fn get(&self, region: Region, keys: &Vec<KeyEvent>) -> (r: Option<&Signal>)
        ensures
            match r {
                Some(s) => exists|i: int|
                    0 <= i < self@.len() && self@[i].0 == region && bound_signal(self@[i].1, keys@)
                        == Some(*s),
                None => forall|i: int|
                    0 <= i < self@.len() && self@[i].0 == region ==> bound_signal(self@[i].1, keys@)
                        is None,
            },
    {
        let mut i: usize = 0;
        assert(self@.len() == self.regions@.len());
        while i < self.regions.len()
            invariant
                i <= self.regions@.len(),
                self@.len() == self.regions@.len(),
                forall|t: int|
                    0 <= t < i && self@[t].0 == region ==> bound_signal(self@[t].1, keys@) is None,
            decreases self.regions.len() - i,
        {
            let entry = &self.regions[i];
            assert(self@[i as int] == region_view(self.regions@[i as int]));
            if entry.0 == region {
                let bs = &entry.1;
                let ghost bsv = self@[i as int].1;
                assert(bsv == bs@.map_values(|b: (Vec<KeyEvent>, Signal)| (b.0@, b.1)));
                let mut j = bs.len();
                assert(bsv.take(j as int) =~= bsv);
                while j > 0
                    invariant
                        i < self.regions@.len(),
                        self@.len() == self.regions@.len(),
                        bsv == self@[i as int].1,
                        self@[i as int].0 == region,
                        j <= bs@.len(),
                        bsv == bs@.map_values(|b: (Vec<KeyEvent>, Signal)| (b.0@, b.1)),
                        bound_signal(bsv, keys@) == bound_signal(bsv.take(j as int), keys@),
                    decreases j,
                {
                    assert(bsv.take(j as int).drop_last() =~= bsv.take(j - 1));
                    if same_keys(&bs[j - 1].0, keys) {
                        proof {
                            assert(bsv.take(j as int).last() == bsv[j - 1]);
                            assert(bsv[j - 1] == (bs@[j - 1].0@, bs@[j - 1].1));
                            assert(bound_signal(self@[i as int].1, keys@) == Some(bs@[j - 1].1));
                            assert(0 <= i < self@.len() && self@[i as int].0 == region && bound_signal(
                                self@[i as int].1,
                                keys@,
                            ) == Some(bs@[j - 1].1));
                        }
                        return Some(&bs[j - 1].1);
                    }
                    j = j - 1;
                }
                assert(bsv.take(0) =~= Seq::<(Seq<KeyEvent>, Signal)>::empty());
            }
            i = i + 1;
        }
        None
    }
}

} // verus!

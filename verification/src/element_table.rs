//! The element table that a script engine's selector lookup reads: each element's
//! handle, tag name, classes, `id` and parent, and the lookup over it.
use vstd::prelude::*;
use crate::node::{NodeId, NodeKind};
use crate::request::header_lookup;
use crate::selector::{Combinator, PartV, SelectorEngine, SimpleSelector, SimpleV, parse_v, parsable};
use crate::text::{eq_ignore_case, str_eq, str_eq_ignore_case, strings_view};
use crate::tree::{DomTree, slot_order, lemma_slot_order_of};

verus! {

/// What the lookup knows of an element.
pub struct ElementRow {
    pub node: u64,
    /// The tag name as the tree holds it.
    pub tag: String,
    pub classes: Vec<String>,
    /// The `id` attribute, empty when there is none.
    pub id: String,
    pub parent: Option<u64>,
}

/// An element row as values.
pub struct RowV {
    pub node: u64,
    pub tag: Seq<char>,
    pub classes: Seq<Seq<char>>,
    pub id: Seq<char>,
    pub parent: Option<u64>,
}

impl View for ElementRow {
    type V = RowV;

    open spec fn view(&self) -> RowV {
        RowV {
            node: self.node,
            tag: self.tag@,
            classes: strings_view(self.classes@),
            id: self.id@,
            parent: self.parent,
        }
    }
}

pub open spec fn rows_view(v: Seq<ElementRow>) -> Seq<RowV> {
    v.map_values(|r: ElementRow| r@)
}

/// No handle has two rows.
pub open spec fn rows_distinct(rows: Seq<RowV>) -> bool {
    forall|i: int, j: int| 0 <= i < j < rows.len() ==> #[trigger] rows[i].node != #[trigger] rows[j].node
}

/// The row of handle `k`.
pub open spec fn row_of(rows: Seq<RowV>, k: u64) -> Option<int> {
    if exists|i: int| 0 <= i < rows.len() && rows[i].node == k {
        Some(choose|i: int| 0 <= i < rows.len() && rows[i].node == k)
    } else {
        None
    }
}

/// Following parents from `cur`, a handle without a row, or none, is reached within
/// `n` steps.
pub open spec fn chain_ends(rows: Seq<RowV>, cur: Option<u64>, n: nat) -> bool
    decreases n,
{
    match cur {
        None => true,
        Some(a) => match row_of(rows, a) {
            None => true,
            Some(i) => n > 0 && chain_ends(rows, rows[i].parent, (n - 1) as nat),
        },
    }
}

/// No parent chain goes round: from every row it ends within as many steps as there
/// are rows.
pub open spec fn rows_acyclic(rows: Seq<RowV>) -> bool {
    forall|i: int| 0 <= i < rows.len() ==> chain_ends(rows, #[trigger] rows[i].parent, rows.len())
}

/// Whether a simple selector's tag (ignoring ASCII case), classes and id fit a row;
/// its attribute and position tests are not read here.
pub open spec fn row_simple(s: SimpleV, r: RowV) -> bool {
    &&& (s.tag matches Some(t) ==> eq_ignore_case(r.tag, t))
    &&& (forall|j: int| 0 <= j < s.classes.len() ==> #[trigger] r.classes.contains(s.classes[j]))
    &&& (s.id matches Some(i) ==> r.id == i)
}

/// Whether parts `0..idx`, right to left, each fit the nearest ancestor from `cur` on
/// that fits it, the next part looking above that one; at most `fuel` rows are read.
pub open spec fn rows_walk(rows: Seq<RowV>, ps: Seq<PartV>, idx: nat, cur: Option<u64>, fuel: nat) -> bool
    decreases fuel,
{
    if idx == 0 {
        true
    } else if fuel == 0 {
        false
    } else {
        match cur {
            None => false,
            Some(a) => match row_of(rows, a) {
                None => false,
                Some(i) => if row_simple(ps[idx - 1].0, rows[i]) {
                    rows_walk(rows, ps, (idx - 1) as nat, rows[i].parent, (fuel - 1) as nat)
                } else {
                    rows_walk(rows, ps, idx, rows[i].parent, (fuel - 1) as nat)
                },
            },
        }
    }
}

/// Whether selector `ps` matches row `r`: its last part fits the row and the others fit
/// ancestors, every combinator read as a descendant one.
pub open spec fn row_matches(rows: Seq<RowV>, ps: Seq<PartV>, r: RowV) -> bool {
    &&& ps.len() > 0
    &&& row_simple(ps.last().0, r)
    &&& rows_walk(rows, ps, (ps.len() - 1) as nat, r.parent, rows.len())
}

/// The handles of the rows among the first `n` that one of the selectors matches, in
/// table order.
pub open spec fn rows_matched(rows: Seq<RowV>, sels: Seq<Seq<PartV>>, n: nat) -> Seq<u64>
    decreases n,
{
    if n == 0 || n > rows.len() {
        seq![]
    } else {
        let rest = rows_matched(rows, sels, (n - 1) as nat);
        let r = rows[n - 1];
        if exists|s: int| 0 <= s < sels.len() && row_matches(rows, sels[s], r) {
            rest.push(r.node)
        } else {
            rest
        }
    }
}

fn find_row(rows: &Vec<ElementRow>, k: u64) -> (r: Option<usize>)
    requires
        rows_distinct(rows_view(rows@)),
    ensures
        r matches Some(i) ==> i < rows@.len() && row_of(rows_view(rows@), k) == Some(i as int),
        r is None ==> row_of(rows_view(rows@), k) is None,
{
    let ghost rv = rows_view(rows@);
    let mut i: usize = 0;
    while i < rows.len()
        invariant
            i <= rows@.len(),
            rv == rows_view(rows@),
            rows_distinct(rv),
            forall|j: int| 0 <= j < i ==> rv[j].node != k,
        decreases rows@.len() - i,
    {
        assert(rv[i as int] == rows@[i as int]@);
        if rows[i].node == k {
            assert(row_of(rv, k) is Some);
            let ghost c = choose|c: int| 0 <= c < rv.len() && rv[c].node == k;
            assert(c == i) by {
                if c < i {
                } else if c > i {
                    assert(rv[i as int].node != rv[c].node);
                }
            }
            return Some(i);
        }
        i = i + 1;
    }
    assert(row_of(rv, k) is None) by {
        if exists|j: int| 0 <= j < rv.len() && rv[j].node == k {
            let j = choose|j: int| 0 <= j < rv.len() && rv[j].node == k;
            assert(rv[j].node != k);
        }
    }
    None
}

fn simple_fits(s: &SimpleSelector, row: &ElementRow) -> (r: bool)
    ensures
        r == row_simple(s@, row@),
{
    match &s.tag {
        Some(t) => {
            if !str_eq_ignore_case(row.tag.as_str(), t.as_str()) {
                return false;
            }
        },
        None => {},
    }
    let ghost cv = strings_view(s.classes@);
    let ghost rc = strings_view(row.classes@);
    let mut j: usize = 0;
    while j < s.classes.len()
        invariant
            j <= s.classes@.len(),
            cv == strings_view(s.classes@),
            rc == strings_view(row.classes@),
            forall|x: int| 0 <= x < j ==> #[trigger] rc.contains(cv[x]),
        decreases s.classes@.len() - j,
    {
        let mut found = false;
        let mut q: usize = 0;
        while q < row.classes.len()
            invariant
                q <= row.classes@.len(),
                j < s.classes@.len(),
                cv == strings_view(s.classes@),
                rc == strings_view(row.classes@),
                found ==> rc.contains(cv[j as int]),
                !found ==> forall|y: int| 0 <= y < q ==> rc[y] != cv[j as int],
            decreases row.classes@.len() - q,
        {
            if !found && str_eq(row.classes[q].as_str(), s.classes[j].as_str()) {
                assert(rc[q as int] == cv[j as int]);
                found = true;
            }
            q = q + 1;
        }
        if !found {
            assert(s@.classes[j as int] == cv[j as int]);
            assert(!rc.contains(cv[j as int])) by {
                if rc.contains(cv[j as int]) {
                    let y = choose|y: int| 0 <= y < rc.len() && rc[y] == cv[j as int];
                    assert(rc[y] != cv[j as int]);
                }
            }
            assert(!row@.classes.contains(s@.classes[j as int]));
            return false;
        }
        j = j + 1;
    }
    match &s.id {
        Some(i) => str_eq(row.id.as_str(), i.as_str()),
        None => true,
    }
}

fn walk_up(rows: &Vec<ElementRow>, ps: &Vec<(SimpleSelector, Option<Combinator>)>, idx0: usize, start: Option<u64>) -> (r: bool)
    requires
        idx0 <= ps@.len(),
        rows_distinct(rows_view(rows@)),
    ensures
        r == rows_walk(rows_view(rows@), crate::selector::parts_view(ps@), idx0 as nat, start, rows@.len()),
{
    let ghost rv = rows_view(rows@);
    let ghost pv = crate::selector::parts_view(ps@);
    let mut idx = idx0;
    let mut cur = start;
    let mut fuel = rows.len();
    while idx > 0 && fuel > 0
        invariant
            idx <= ps@.len(),
            fuel <= rows@.len(),
            rv == rows_view(rows@),
            pv == crate::selector::parts_view(ps@),
            rows_distinct(rv),
            rows_walk(rv, pv, idx as nat, cur, fuel as nat) == rows_walk(rv, pv, idx0 as nat, start, rows@.len()),
        decreases fuel,
    {
        match cur {
            None => {
                return false;
            },
            Some(a) => {
                match find_row(rows, a) {
                    None => {
                        return false;
                    },
                    Some(i) => {
                        assert(rv[i as int] == rows@[i as int]@);
                        assert(pv[idx - 1] == (ps@[idx - 1].0@, ps@[idx - 1].1));
                        if simple_fits(&ps[idx - 1].0, &rows[i]) {
                            idx = idx - 1;
                        }
                        cur = rows[i].parent;
                        fuel = fuel - 1;
                    },
                }
            },
        }
    }
    idx == 0
}

/// Whether one of the engine's selectors matches row `r`.
fn row_hit(rows: &Vec<ElementRow>, engine: &SelectorEngine, r: usize) -> (b: bool)
    requires
        r < rows@.len(),
        rows_distinct(rows_view(rows@)),
    ensures
        b == exists|s: int| 0 <= s < engine@.len() && row_matches(rows_view(rows@), engine@[s], rows@[r as int]@),
{
    let ghost rv = rows_view(rows@);
    let mut s: usize = 0;
    while s < engine.selectors.len()
        invariant
            s <= engine.selectors@.len(),
            r < rows@.len(),
            rv == rows_view(rows@),
            rows_distinct(rv),
            forall|x: int| 0 <= x < s ==> !row_matches(rv, #[trigger] engine@[x], rows@[r as int]@),
        decreases engine.selectors@.len() - s,
    {
        let parts = &engine.selectors[s].parts;
        assert(engine@[s as int] == crate::selector::parts_view(parts@));
        if parts.len() > 0 {
            let last = parts.len() - 1;
            assert(engine@[s as int].last() == (parts@[last as int].0@, parts@[last as int].1));
            if simple_fits(&parts[last].0, &rows[r]) && walk_up(rows, parts, last, rows[r].parent) {
                assert(row_matches(rv, engine@[s as int], rows@[r as int]@));
                return true;
            }
        }
        s = s + 1;
    }
    false
}

/// The handles of the rows that the comma-separated `selector` matches, in table
/// order. A simple selector is read for its tag, classes and id; the parts before
/// the last are looked for among the ancestors, nearest first.
pub fn query_rows(rows: &Vec<ElementRow>, selector: &str) -> (r: Vec<u64>)
    requires
        parsable(selector@),
        rows_distinct(rows_view(rows@)),
        rows_acyclic(rows_view(rows@)),
    ensures
        r@ == rows_matched(rows_view(rows@), parse_v(selector@), rows@.len()),
{
    let engine = SelectorEngine::parse(selector);
    let ghost rv = rows_view(rows@);
    let mut out: Vec<u64> = Vec::new();
    let mut i: usize = 0;
    while i < rows.len()
        invariant
            i <= rows@.len(),
            rv == rows_view(rows@),
            rows_distinct(rv),
            engine@ == parse_v(selector@),
            out@ == rows_matched(rv, engine@, i as nat),
        decreases rows@.len() - i,
    {
        assert(rv[i as int] == rows@[i as int]@);
        if row_hit(rows, &engine, i) {
            out.push(rows[i].node);
        }
        i = i + 1;
    }
    out
}

/// The rows of the elements among `keys`, in that order.
pub open spec fn tree_rows(t: DomTree, keys: Seq<u64>) -> Seq<RowV>
    decreases keys.len(),
{
    if keys.len() == 0 {
        seq![]
    } else {
        let rest = tree_rows(t, keys.drop_last());
        let k = keys.last();
        let n = t.nodes()[k];
        match n.kind {
            NodeKind::Element(e) => rest.push(
                RowV {
                    node: k,
                    tag: e.tag_name@,
                    classes: strings_view(e.class_list@),
                    id: match header_lookup(e.attributes@, seq!['i', 'd']) {
                        Some(v) => v,
                        None => seq![],
                    },
                    parent: match n.parent {
                        Some(p) => Some(p.0),
                        None => None,
                    },
                },
            ),
            _ => rest,
        }
    }
}

/// The table of the tree's elements, in slot order.
pub fn element_rows(tree: &DomTree) -> (r: Vec<ElementRow>)
    requires
        tree.wf(),
    ensures
        rows_view(r@) == tree_rows(*tree, slot_order(*tree)),
{
    let keys = tree.slot_keys();
    proof {
        lemma_slot_order_of(keys@, *tree);
    }
    let mut rows: Vec<ElementRow> = Vec::new();
    let mut i: usize = 0;
    while i < keys.len()
        invariant
            tree.wf(),
            i <= keys@.len(),
            crate::tree::slot_ordered(keys@, *tree),
            rows_view(rows@) == tree_rows(*tree, keys@.take(i as int)),
        decreases keys@.len() - i,
    {
        let ghost ks = keys@.take(i + 1);
        assert(ks.drop_last() =~= keys@.take(i as int));
        assert(ks.last() == keys@[i as int]);
        let k = keys[i];
        assert(keys@.contains(k));
        let node = tree.get_node(NodeId(k));
        match &node.kind {
            NodeKind::Element(e) => {
                let id = match e.attributes.get_value("id") {
                    Some(v) => v.to_owned(),
                    None => String::new(),
                };
                proof {
                    reveal_strlit("id");
                    assert("id"@ =~= seq!['i', 'd']);
                }
                let mut classes: Vec<String> = Vec::new();
                let mut j: usize = 0;
                while j < e.class_list.len()
                    invariant
                        j <= e.class_list@.len(),
                        strings_view(classes@) == strings_view(e.class_list@).take(j as int),
                    decreases e.class_list@.len() - j,
                {
                    let ghost c0 = classes@;
                    let c = e.class_list[j].clone();
                    classes.push(c);
                    assert(classes@ =~= c0.push(c));
                    assert(strings_view(classes@) =~= strings_view(c0).push(e.class_list@[j as int]@));
                    assert(strings_view(e.class_list@).take(j + 1) =~= strings_view(e.class_list@).take(j as int).push(e.class_list@[j as int]@));
                    j = j + 1;
                }
                assert(strings_view(e.class_list@).take(e.class_list@.len() as int) =~= strings_view(
                    e.class_list@,
                ));
                let parent = match node.parent {
                    Some(p) => Some(p.0),
                    None => None,
                };
                let row = ElementRow { node: k, tag: e.tag_name.clone(), classes, id, parent };
                let ghost r0 = rows@;
                rows.push(row);
                assert(rows@ =~= r0.push(row));
                assert(rows_view(rows@) =~= rows_view(r0).push(row@));
            },
            _ => {},
        }
        i = i + 1;
    }
    assert(keys@.take(keys@.len() as int) =~= keys@);
    rows
}

} // verus!

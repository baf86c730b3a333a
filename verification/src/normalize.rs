//! The text of a configuration: a new one, and completing one that lacks entries.
use vstd::prelude::*;
use vstd::string::StringExecFns;
use crate::boxes::random_secret;
use crate::config::{private_key_text, secret_of, Config, KeyError};
use crate::peering::texts_view;
use crate::seqs::{first_index, lemma_first_index, lemma_first_index_at};

verus! {

/// The text of a configuration in front of the private key.
pub const TEMPLATE_HEAD: &'static str = "# The private key of this node: 128 hexadecimal digits. Keep it secret.\nprivate_key = \"";

/// The text of a configuration after the private key.
pub const TEMPLATE_TAIL: &'static str = "\"\n\n# The nodes to link to, such as \"tls://host:port\".\npeers = []\n\n# The addresses on which links are accepted.\nlisten = [\"tcp://[::]:0\"]\n\n# The address on which the node is administered, or \"none\".\nadmin_listen = \"tcp://localhost:9001\"\n\n# The name of the tunnel interface: \"auto\" to pick one, \"none\" for none.\nif_name = \"auto\"\n\n# The largest packet of the tunnel interface.\nif_mtu = 65535\n\n# Whether nothing is told of this node to others.\nnode_info_privacy = false\n\n# The keys of the only nodes that may link to this one, if there are any.\nallowed_public_keys = []\n\n# What is told of this node to others.\n[node_info]\n\n# Finding neighbours on network interfaces.\n[[multicast_interfaces]]\nfilter = \"*\"\nbeacon = true\nlisten = true\nport = 0\npriority = 0\npassword = \"\"\n\n# Routing networks outside the mesh to nodes.\n[tunnel_routing]\nenable = false\nyggdrasil_routing = true\nipv4_address = \"\"\ninstall_system_routes = true\n\n# The networks behind each node.\n[tunnel_routing.remote_subnets]\n\n# The filter between the mesh and the host.\n[firewall]\nenable = false\nopen_tcp = []\nopen_udp = []\nopen_all_for = []\nallow_icmp_echo = true\n";

/// The text of a configuration with a private key.
pub open spec fn template_with(key: Seq<char>) -> Seq<char> {
    TEMPLATE_HEAD@ + key + TEMPLATE_TAIL@
}

/// The text of a configuration with a private key.
pub fn config_text(key: &str) -> (r: String)
    ensures
        r@ == template_with(key@),
{
    String::from_str(TEMPLATE_HEAD).concat(key).concat(TEMPLATE_TAIL)
}

/// The text of a configuration for a secret key.
pub fn config_text_for(secret: &[u8; 32]) -> (r: String)
    ensures
        exists|key: Seq<char>| #[trigger]
            template_with(key) == r@ && secret_of(key) == Ok::<[u8; 32], KeyError>(*secret),
{
    let key = private_key_text(secret);
    config_text(key.as_str())
}

impl Config {
    /// The text of a configuration with a new key, drawn at random.
    pub fn generate_config_text() -> (r: String)
        ensures
            exists|key: Seq<char>| #[trigger] template_with(key) == r@ && secret_of(key) is Ok,
    {
        let secret = random_secret();
        config_text_for(&secret)
    }
}

// ---------------------------------------------------------------------------
// Documents
// ---------------------------------------------------------------------------

/// A TOML document.
#[verifier::external_type_specification]
#[verifier::external_body]
pub struct ExDocumentMut(toml_edit::DocumentMut);

/// A table of a TOML document.
#[verifier::external_type_specification]
#[verifier::external_body]
pub struct ExTable(toml_edit::Table);

/// What there is by a key of a table.
pub enum Node {
    /// Nothing: the key has a place, but stands for nothing.
    Nothing,
    /// A value, or an array of tables: how it is written, with the comments in it and around it.
    Leaf(Seq<char>),
    /// A table.
    Table(Branch),
}

/// An entry of a table.
pub struct Entry {
    pub key: Seq<char>,
    /// The comments and blanks around the key.
    pub notes: Seq<char>,
    /// How else the key is written; empty where it is written plainly.
    pub style: Seq<char>,
    pub node: Node,
}

/// A table: its entries in their order, and how the table itself is written, with the comments
/// around it.
pub struct Branch {
    pub form: Seq<char>,
    pub entries: Seq<Entry>,
}

/// A document: its outermost table, and what stands behind the last entry.
pub struct Tree {
    pub root: Branch,
    pub ending: Seq<char>,
}

/// What a table holds.
pub uninterp spec fn table_tree(t: toml_edit::Table) -> Branch;

/// What a document holds.
pub uninterp spec fn document_tree(d: toml_edit::DocumentMut) -> Tree;

/// What the document that a text stands for holds, if it is one.
pub uninterp spec fn toml_tree(text: Seq<char>) -> Option<Tree>;

/// The text of a document.
pub uninterp spec fn tree_text(t: Tree) -> Seq<char>;

/// The place of the entry with a key, or the number of entries.
pub open spec fn place_of(b: Branch, key: Seq<char>) -> int {
    first_index(b.entries, |e: Entry| e.key == key)
}

/// What there is by a key.
pub open spec fn found(b: Branch, key: Seq<char>) -> Node {
    let at = place_of(b, key);
    if at < b.entries.len() {
        b.entries[at].node
    } else {
        Node::Nothing
    }
}

/// The property of being more than a place.
pub open spec fn is_there() -> spec_fn(Entry) -> bool {
    |e: Entry| !(e.node is Nothing)
}

/// The keys by which there is something, in their order.
pub open spec fn keys_in(b: Branch) -> Seq<Seq<char>> {
    b.entries.filter(is_there()).map_values(|e: Entry| e.key)
}

/// The table with an entry: in the place of the one with its key, or behind the last one.
pub open spec fn put_entry(b: Branch, e: Entry) -> Branch {
    let at = place_of(b, e.key);
    Branch {
        form: b.form,
        entries: if at < b.entries.len() {
            b.entries.update(at, e)
        } else {
            b.entries.push(e)
        },
    }
}

/// The table with something else by a key that has a place.
pub open spec fn with_node(b: Branch, key: Seq<char>, node: Node) -> Branch {
    let at = place_of(b, key);
    Branch { form: b.form, entries: b.entries.update(at, Entry { node, ..b.entries[at] }) }
}

/// The entry of a table as it is copied: with its comments, the key written plainly.
pub open spec fn copied(b: Branch, key: Seq<char>) -> Entry {
    Entry { style: Seq::empty(), ..b.entries[place_of(b, key)] }
}

/// No key of the table has two places.
pub open spec fn keys_differ(b: Branch) -> bool {
    forall|i: int, j: int|
        0 <= i < j < b.entries.len() ==> (#[trigger] b.entries[i]).key != (#[trigger] b.entries[j]).key
}

/// No key has two places, in the table or in one under it.
pub open spec fn keys_differ_throughout(b: Branch) -> bool
    decreases b,
{
    &&& keys_differ(b)
    &&& forall|i: int|
        0 <= i < b.entries.len() ==> ((#[trigger] b.entries[i]).node matches Node::Table(sub)
            ==> keys_differ_throughout(sub))
}

/// Calls `toml_edit::DocumentMut::from_str`: whether a text is a document, and what that holds,
/// is a function of the text. In a table no key occurs twice.
#[verifier::external_body]
pub(crate) fn parse_document(text: &str) -> (r: Option<toml_edit::DocumentMut>)
    ensures
        match r {
            Some(d) => toml_tree(text@) == Some(document_tree(d)) && keys_differ_throughout(
                document_tree(d).root,
            ),
            None => toml_tree(text@) is None,
        },
{
    text.parse().ok()
}

/// Calls `toml_edit::DocumentMut::to_string`: the text is a function of what the document holds,
/// with all its comments. Nothing is said of how the text reads again: paths of keys can be written
/// that are longer than those that are read, and tables are written behind the keys beside them.
#[verifier::external_body]
pub(crate) fn show_document(doc: &toml_edit::DocumentMut) -> (r: String)
    ensures
        r@ == tree_text(document_tree(*doc)),
{
    doc.to_string()
}

/// Calls `toml_edit::DocumentMut::as_table`: the outermost table.
#[verifier::external_body]
pub(crate) fn document_table(doc: &toml_edit::DocumentMut) -> (r: &toml_edit::Table)
    ensures
        table_tree(*r) == document_tree(*doc).root,
{
    doc.as_table()
}

/// Calls `toml_edit::DocumentMut::as_table_mut`: the outermost table. Whatever becomes of it, what
/// stands behind the last entry stays.
#[verifier::external_body]
pub(crate) fn document_table_mut(doc: &mut toml_edit::DocumentMut) -> (r: &mut toml_edit::Table)
    ensures
        table_tree(*r) == document_tree(*old(doc)).root,
        document_tree(*final(doc)) == (Tree {
            root: table_tree(*final(r)),
            ending: document_tree(*old(doc)).ending,
        }),
{
    doc.as_table_mut()
}

/// Calls `toml_edit::Table::iter`: the keys by which there is something, in their order.
#[verifier::external_body]
pub(crate) fn table_keys(table: &toml_edit::Table) -> (r: Vec<String>)
    ensures
        texts_view(r@) == keys_in(table_tree(*table)),
{
    table.iter().map(|(key, _)| key.to_string()).collect()
}

/// Calls `toml_edit::Table::get` and `toml_edit::Item::is_table`: whether there is something by a
/// key, and whether that is a table.
#[verifier::external_body]
pub(crate) fn table_has(table: &toml_edit::Table, key: &str) -> (r: Option<bool>)
    ensures
        r == match found(table_tree(*table), key@) {
            Node::Nothing => None,
            Node::Leaf(_) => Some(false),
            Node::Table(_) => Some(true),
        },
{
    table.get(key).map(|item| item.is_table())
}

/// Calls `toml_edit::Table::get` and `toml_edit::Item::as_table` for a key by which there is a
/// table: that table.
#[verifier::external_body]
pub(crate) fn table_at<'a>(table: &'a toml_edit::Table, key: &str) -> (r: &'a toml_edit::Table)
    requires
        found(table_tree(*table), key@) is Table,
    ensures
        found(table_tree(*table), key@) == Node::Table(table_tree(*r)),
{
    table.get(key).unwrap().as_table().unwrap()
}

/// Calls `toml_edit::Table::get_mut` and `toml_edit::Item::as_table_mut` for a key by which there
/// is a table: that table. Whatever becomes of it, the rest stays.
#[verifier::external_body]
pub(crate) fn table_at_mut<'a>(table: &'a mut toml_edit::Table, key: &str) -> (r:
    &'a mut toml_edit::Table)
    requires
        found(table_tree(*old(table)), key@) is Table,
    ensures
        found(table_tree(*old(table)), key@) == Node::Table(table_tree(*r)),
        table_tree(*final(table)) == with_node(
            table_tree(*old(table)),
            key@,
            Node::Table(table_tree(*final(r))),
        ),
{
    table.get_mut(key).unwrap().as_table_mut().unwrap()
}

/// Calls `toml_edit::Table::insert` with a copy of what another table has by a key, and
/// `toml_edit::KeyMut::leaf_decor_mut` for the comments around the key: the entry takes the place
/// of the one with its key, or stands behind the last one.
#[verifier::external_body]
pub(crate) fn insert_copy(table: &mut toml_edit::Table, from: &toml_edit::Table, key: &str)
    requires
        !(found(table_tree(*from), key@) is Nothing),
    ensures
        table_tree(*final(table)) == put_entry(
            table_tree(*old(table)),
            copied(table_tree(*from), key@),
        ),
{
    table.insert(key, from.get(key).unwrap().clone());
    *table.key_mut(key).unwrap().leaf_decor_mut() = from.key(key).unwrap().leaf_decor().clone();
}

// ---------------------------------------------------------------------------
// Completing
// ---------------------------------------------------------------------------

/// A table after the first `n` keys of another were seen to: what it lacks is copied, and tables
/// that are in both are completed in the same way.
pub open spec fn completed_by(into: Branch, from: Branch, n: nat) -> Branch
    decreases from, n,
{
    if n == 0 || n > keys_in(from).len() {
        into
    } else {
        let now = completed_by(into, from, (n - 1) as nat);
        let key = keys_in(from)[n - 1];
        match (found(now, key), found(from, key)) {
            (Node::Nothing, _) => put_entry(now, copied(from, key)),
            (Node::Table(sub), Node::Table(other)) => {
                proof {
                    lemma_found_is_less(from, key);
                }
                with_node(now, key, Node::Table(completed_by(sub, other, keys_in(other).len())))
            },
            _ => now,
        }
    }
}

/// A table with what it lacks of another.
pub open spec fn completed(into: Branch, from: Branch) -> Branch {
    completed_by(into, from, keys_in(from).len())
}

/// A document with what it lacks of another.
pub open spec fn completed_tree(into: Tree, from: Tree) -> Tree {
    Tree { root: completed(into.root, from.root), ending: into.ending }
}

/// A table by a key of a table is less than that.
pub proof fn lemma_found_is_less(b: Branch, key: Seq<char>)
    ensures
        found(b, key) matches Node::Table(sub) ==> decreases_to!(b => sub),
{
    lemma_first_index(b.entries, |e: Entry| e.key == key);
    if found(b, key) is Table {
        let at = place_of(b, key);
        assert(decreases_to!(b => b.entries));
        assert(decreases_to!(b.entries => b.entries[at]));
        assert(decreases_to!(b.entries[at] => b.entries[at].node));
        assert(decreases_to!(b.entries[at].node => b.entries[at].node->Table_0));
    }
}

/// The first place with a key in a list with one more entry, or another entry in some place.
proof fn lemma_put_places(b: Branch, e: Entry, key: Seq<char>)
    ensures
        found(put_entry(b, e), key) == if key == e.key {
            e.node
        } else {
            found(b, key)
        },
{
    let p = |x: Entry| x.key == key;
    let pe = |x: Entry| x.key == e.key;
    lemma_first_index(b.entries, p);
    lemma_first_index(b.entries, pe);
    let at = place_of(b, e.key);
    let k = place_of(b, key);
    let n = put_entry(b, e);
    if key == e.key {
        lemma_first_index_at(n.entries, p, at);
    } else if k < b.entries.len() {
        lemma_first_index_at(n.entries, p, k);
    } else {
        lemma_first_index_at(n.entries, p, n.entries.len() as int);
    }
}

proof fn lemma_with_places(b: Branch, at: Seq<char>, node: Node, key: Seq<char>)
    requires
        place_of(b, at) < b.entries.len(),
    ensures
        found(with_node(b, at, node), key) == if key == at {
            node
        } else {
            found(b, key)
        },
{
    let p = |x: Entry| x.key == key;
    lemma_first_index(b.entries, p);
    lemma_first_index(b.entries, |x: Entry| x.key == at);
    let n = with_node(b, at, node);
    lemma_first_index_at(n.entries, p, place_of(b, key));
}

/// Something is found by each of the keys, and no key occurs twice among them.
proof fn lemma_keys_in(b: Branch)
    requires
        keys_differ(b),
    ensures
        forall|i: int| 0 <= i < keys_in(b).len() ==> !(found(b, #[trigger] keys_in(b)[i]) is Nothing),
        forall|i: int, j: int|
            0 <= i < j < keys_in(b).len() ==> (#[trigger] keys_in(b)[i]) != (#[trigger] keys_in(b)[j]),
        forall|key: Seq<char>| !(#[trigger] found(b, key) is Nothing) ==> keys_in(b).contains(key),
{
    let there = b.entries.filter(is_there());
    lemma_filter_places(b.entries, is_there());
    assert forall|i: int| 0 <= i < keys_in(b).len() implies !(found(
        b,
        #[trigger] keys_in(b)[i],
    ) is Nothing) by {
        let o = filter_place(b.entries, is_there(), i);
        assert(b.entries[o] == there[i]);
        let key = there[i].key;
        lemma_first_index_at(b.entries, |x: Entry| x.key == key, o);
    }
    assert forall|i: int, j: int| 0 <= i < j < keys_in(b).len() implies (#[trigger] keys_in(b)[i])
        != (#[trigger] keys_in(b)[j]) by {
        let oi = filter_place(b.entries, is_there(), i);
        let oj = filter_place(b.entries, is_there(), j);
        assert(b.entries[oi] == there[i]);
        assert(b.entries[oj] == there[j]);
    }
    assert forall|key: Seq<char>| !(#[trigger] found(b, key) is Nothing) implies keys_in(b).contains(
        key,
    ) by {
        lemma_first_index(b.entries, |x: Entry| x.key == key);
        let at = place_of(b, key);
        b.entries.lemma_filter_contains(is_there(), at);
        let i = choose|i: int| 0 <= i < there.len() && there[i] == b.entries[at];
        assert(keys_in(b)[i] == key);
    }
}

/// Where the `i`th of the elements with a property stands.
spec fn filter_place<A>(s: Seq<A>, p: spec_fn(A) -> bool, i: int) -> int
    decreases s.len(),
{
    if s.len() == 0 {
        0
    } else if i < s.drop_last().filter(p).len() {
        filter_place(s.drop_last(), p, i)
    } else {
        s.len() - 1
    }
}

proof fn lemma_filter_places<A>(s: Seq<A>, p: spec_fn(A) -> bool)
    ensures
        forall|i: int|
            0 <= i < s.filter(p).len() ==> 0 <= #[trigger] filter_place(s, p, i) < s.len() && s[filter_place(
                s,
                p,
                i,
            )] == s.filter(p)[i] && p(s.filter(p)[i]),
        forall|i: int, j: int|
            0 <= i < j < s.filter(p).len() ==> #[trigger] filter_place(s, p, i)
                < #[trigger] filter_place(s, p, j),
    decreases s.len(),
{
    reveal(Seq::filter);
    if s.len() > 0 {
        let d = s.drop_last();
        lemma_filter_places(d, p);
        assert(s.filter(p) == if p(s.last()) {
            d.filter(p).push(s.last())
        } else {
            d.filter(p)
        });
        assert forall|i: int| 0 <= i < s.filter(p).len() implies 0 <= #[trigger] filter_place(s, p, i)
            < s.len() && s[filter_place(s, p, i)] == s.filter(p)[i] && p(s.filter(p)[i]) by {
            if i < d.filter(p).len() {
                assert(filter_place(s, p, i) == filter_place(d, p, i));
            }
        }
        assert forall|i: int, j: int| 0 <= i < j < s.filter(p).len() implies #[trigger] filter_place(
            s,
            p,
            i,
        ) < #[trigger] filter_place(s, p, j) by {
            assert(filter_place(s, p, i) == filter_place(d, p, i));
            if j < d.filter(p).len() {
                assert(filter_place(s, p, j) == filter_place(d, p, j));
            }
        }
    }
}

/// Puts into a table what it lacks of another. What is there is left alone, whatever it is;
/// tables that are in both are completed in the same way.
fn merge_missing(into: &mut toml_edit::Table, from: &toml_edit::Table)
    requires
        keys_differ_throughout(table_tree(*from)),
    ensures
        table_tree(*final(into)) == completed(table_tree(*old(into)), table_tree(*from)),
    decreases table_tree(*from),
{
    let keys = table_keys(from);
    let ghost e = table_tree(*into);
    let ghost f = table_tree(*from);
    let mut i: usize = 0;
    proof {
        lemma_keys_in(f);
    }
    while i < keys.len()
        invariant
            i <= keys@.len(),
            f == table_tree(*from),
            keys_differ_throughout(f),
            texts_view(keys@) == keys_in(f),
            table_tree(*into) == completed_by(e, f, i as nat),
            forall|i: int|
                0 <= i < keys_in(f).len() ==> !(found(f, #[trigger] keys_in(f)[i]) is Nothing),
        decreases keys@.len() - i,
    {
        let ghost key = keys@[i as int]@;
        proof {
            assert(key == keys_in(f)[i as int]);
            assert(!(found(f, keys_in(f)[i as int]) is Nothing));
        }
        match table_has(into, keys[i].as_str()) {
            None => {
                insert_copy(into, from, keys[i].as_str());
            },
            Some(true) => {
                if let Some(true) = table_has(from, keys[i].as_str()) {
                    let sub = table_at(from, keys[i].as_str());
                    proof {
                        lemma_found_is_less(f, key);
                        lemma_first_index(f.entries, |x: Entry| x.key == key);
                        assert(f.entries[place_of(f, key)].node is Table);
                    }
                    let inner = table_at_mut(into, keys[i].as_str());
                    merge_missing(inner, sub);
                }
            },
            Some(false) => {},
        }
        i = i + 1;
    }
}

/// What is wrong with a text that is to be completed.
#[derive(Clone, Copy, Debug, PartialEq, Eq, Structural)]
pub enum NormalizeError {
    /// It is no TOML document.
    ParseUser,
    /// The text of a new configuration is none.
    ParseTemplate,
}

/// The text of a configuration, completed by what a new one has, but for the key.
pub open spec fn normalized(text: Seq<char>) -> Result<Seq<char>, NormalizeError> {
    match (toml_tree(text), toml_tree(template_with(Seq::empty()))) {
        (None, _) => Err(NormalizeError::ParseUser),
        (_, None) => Err(NormalizeError::ParseTemplate),
        (Some(t), Some(new)) => Ok(tree_text(completed_tree(t, new))),
    }
}

/// Whether a table has all the keys of another, in any order, and tables where that has tables.
pub open spec fn has_keys_of(b: Branch, other: Branch) -> bool
    decreases other,
{
    forall|i: int|
        0 <= i < other.entries.len() ==> match (#[trigger] other.entries[i]).node {
            Node::Nothing => true,
            Node::Leaf(_) => found(b, other.entries[i].key) is Leaf,
            Node::Table(sub) => found(b, other.entries[i].key) matches Node::Table(own)
                && has_keys_of(own, sub),
        }
}

/// Whether the completed text is a document that is written as the text is, and that has the keys
/// of the one that was written. Its tables may be in another order: keys that were added behind a
/// table are written in front of it.
pub open spec fn reads_back(text: Seq<char>) -> bool {
    match (toml_tree(text), toml_tree(template_with(Seq::empty()))) {
        (Some(t), Some(new)) => {
            let out = completed_tree(t, new);
            toml_tree(tree_text(out)) matches Some(again) && tree_text(again) == tree_text(out)
                && has_keys_of(again.root, out.root)
        },
        _ => false,
    }
}

impl Config {
    /// Completes the text of a configuration by what a new one has, but for the key. What the
    /// text has stays as it is, with its comments. Where the result is a document that is written
    /// as it is and has its keys, completing it again gives the same text.
    pub fn normalize_config_text(text: &str) -> (r: Result<String, NormalizeError>)
        ensures
            match r {
                Ok(t) => normalized(text@) == Ok::<Seq<char>, NormalizeError>(t@),
                Err(e) => normalized(text@) == Err::<Seq<char>, NormalizeError>(e),
            },
            r matches Ok(t) ==> reads_back(text@) ==> normalized(t@) == normalized(text@),
    {
        let mut doc = match parse_document(text) {
            Some(d) => d,
            None => {
                return Err(NormalizeError::ParseUser);
            },
        };
        proof {
            reveal_strlit("");
        }
        let template = config_text("");
        assert(template@ =~= template_with(Seq::empty()));
        let other = match parse_document(template.as_str()) {
            Some(d) => d,
            None => {
                return Err(NormalizeError::ParseTemplate);
            },
        };
        proof {
            let out = completed_tree(document_tree(doc), document_tree(other));
            if reads_back(text@) {
                let again = toml_tree(tree_text(out))->0;
                lemma_lacks_nothing(
                    again.root,
                    document_tree(doc).root,
                    document_tree(other).root,
                    keys_in(document_tree(other).root).len(),
                );
            }
        }
        let table = document_table_mut(&mut doc);
        merge_missing(table, document_table(&other));
        Ok(show_document(&doc))
    }
}

// ---------------------------------------------------------------------------
// Laws
// ---------------------------------------------------------------------------

/// Whether a table has all that another has, in the same places and written the same, with the
/// same comments; only what is put into tables and behind the last entry may be new.
pub open spec fn keeps(before: Branch, after: Branch) -> bool
    decreases before,
{
    &&& after.form == before.form
    &&& before.entries.len() <= after.entries.len()
    &&& forall|i: int|
        0 <= i < before.entries.len() ==> match (#[trigger] before.entries[i]).node {
            Node::Nothing => after.entries[i].key == before.entries[i].key,
            Node::Leaf(_) => after.entries[i] == before.entries[i],
            Node::Table(sub) => {
                &&& after.entries[i].key == before.entries[i].key
                &&& after.entries[i].notes == before.entries[i].notes
                &&& after.entries[i].style == before.entries[i].style
                &&& after.entries[i].node matches Node::Table(now) && keeps(sub, now)
            },
        }
}

proof fn lemma_keeps_itself(b: Branch)
    ensures
        keeps(b, b),
    decreases b,
{
    assert forall|i: int| 0 <= i < b.entries.len() && (#[trigger] b.entries[i]).node is Table implies keeps(
        b.entries[i].node->Table_0,
        b.entries[i].node->Table_0,
    ) by {
        lemma_entry_is_less(b, i);
        lemma_keeps_itself(b.entries[i].node->Table_0);
    }
}

proof fn lemma_entry_is_less(b: Branch, i: int)
    requires
        0 <= i < b.entries.len(),
        b.entries[i].node is Table,
    ensures
        decreases_to!(b => b.entries[i].node->Table_0),
{
    assert(decreases_to!(b => b.entries));
    assert(decreases_to!(b.entries => b.entries[i]));
    assert(decreases_to!(b.entries[i] => b.entries[i].node));
    assert(decreases_to!(b.entries[i].node => b.entries[i].node->Table_0));
}

proof fn lemma_keeps_on(a: Branch, b: Branch, c: Branch)
    requires
        keeps(a, b),
        keeps(b, c),
    ensures
        keeps(a, c),
    decreases a,
{
    assert forall|i: int| 0 <= i < a.entries.len() implies match (#[trigger] a.entries[i]).node {
        Node::Nothing => c.entries[i].key == a.entries[i].key,
        Node::Leaf(_) => c.entries[i] == a.entries[i],
        Node::Table(sub) => {
            &&& c.entries[i].key == a.entries[i].key
            &&& c.entries[i].notes == a.entries[i].notes
            &&& c.entries[i].style == a.entries[i].style
            &&& c.entries[i].node matches Node::Table(now) && keeps(sub, now)
        },
    } by {
        let x = b.entries[i];
        if a.entries[i].node is Table {
            lemma_entry_is_less(a, i);
            lemma_keeps_on(a.entries[i].node->Table_0, x.node->Table_0, c.entries[i].node->Table_0);
        }
    }
}

proof fn lemma_put_keeps(b: Branch, e: Entry)
    requires
        found(b, e.key) is Nothing,
    ensures
        keeps(b, put_entry(b, e)),
{
    lemma_keeps_itself(b);
    lemma_first_index(b.entries, |x: Entry| x.key == e.key);
}

proof fn lemma_completing_keeps(into: Branch, from: Branch, n: nat)
    requires
        n <= keys_in(from).len(),
    ensures
        keeps(into, completed_by(into, from, n)),
    decreases from, n,
{
    if n == 0 {
        lemma_keeps_itself(into);
    } else {
        let m = (n - 1) as nat;
        let now = completed_by(into, from, m);
        let key = keys_in(from)[n - 1];
        lemma_completing_keeps(into, from, m);
        match (found(now, key), found(from, key)) {
            (Node::Nothing, _) => {
                lemma_first_index(from.entries, |x: Entry| x.key == key);
                lemma_key_has_place(from, (n - 1) as int);
                lemma_put_keeps(now, copied(from, key));
                lemma_keeps_on(into, now, put_entry(now, copied(from, key)));
            },
            (Node::Table(sub), Node::Table(other)) => {
                lemma_found_is_less(from, key);
                lemma_completing_keeps(sub, other, keys_in(other).len());
                let next = with_node(now, key, Node::Table(completed(sub, other)));
                lemma_first_index(now.entries, |x: Entry| x.key == key);
                lemma_keeps_itself(now);
                assert(keeps(now, next));
                lemma_keeps_on(into, now, next);
            },
            _ => {},
        }
    }
}

proof fn lemma_key_has_place(b: Branch, i: int)
    requires
        0 <= i < keys_in(b).len(),
    ensures
        place_of(b, keys_in(b)[i]) < b.entries.len(),
        b.entries[place_of(b, keys_in(b)[i])].key == keys_in(b)[i],
{
    let key = keys_in(b)[i];
    lemma_filter_places(b.entries, is_there());
    let o = filter_place(b.entries, is_there(), i);
    assert(b.entries[o] == b.entries.filter(is_there())[i]);
    lemma_first_index(b.entries, |x: Entry| x.key == key);
}

/// Whatever a configuration has stays: every key, value and comment, in the same order, and how
/// they are written. The document ends as before.
pub proof fn lemma_everything_stays(into: Tree, from: Tree)
    ensures
        keeps(into.root, completed_tree(into, from).root),
        completed_tree(into, from).ending == into.ending,
{
    lemma_completing_keeps(into.root, from.root, keys_in(from.root).len());
}

/// What there is by a key once the table is completed.
pub open spec fn joined(here: Node, there: Node) -> Node {
    match (here, there) {
        (Node::Nothing, _) => there,
        (Node::Table(sub), Node::Table(other)) => Node::Table(completed(sub, other)),
        _ => here,
    }
}

proof fn lemma_joined_by(into: Branch, from: Branch, n: nat, key: Seq<char>)
    requires
        keys_differ(from),
        n <= keys_in(from).len(),
    ensures
        found(completed_by(into, from, n), key) == if keys_in(from).take(n as int).contains(key) {
            joined(found(into, key), found(from, key))
        } else {
            found(into, key)
        },
    decreases n,
{
    let keys = keys_in(from);
    if n > 0 {
        let m = (n - 1) as nat;
        let now = completed_by(into, from, m);
        let k = keys[n - 1];
        lemma_keys_in(from);
        lemma_joined_by(into, from, m, key);
        lemma_joined_by(into, from, m, k);
        lemma_key_has_place(from, n - 1);
        assert(keys.take(n as int) =~= keys.take(m as int).push(k));
        assert(keys.take(n as int).contains(key) == (keys.take(m as int).contains(key) || key == k)) by {
            if keys.take(m as int).contains(key) {
                let i = choose|i: int| 0 <= i < m && keys.take(m as int)[i] == key;
                assert(keys.take(n as int)[i] == key);
            }
            assert(keys.take(n as int)[m as int] == k);
        }
        assert(!keys.take(m as int).contains(k));
        match (found(now, k), found(from, k)) {
            (Node::Nothing, _) => {
                lemma_put_places(now, copied(from, k), key);
            },
            (Node::Table(sub), Node::Table(other)) => {
                lemma_with_places(now, k, Node::Table(completed(sub, other)), key);
            },
            _ => {},
        }
    } else {
        assert(!keys.take(0).contains(key));
    }
}

/// What is missing is added with all that is under it, what is a table on both sides is completed,
/// and all else is as it was.
pub proof fn lemma_missing_is_added(into: Branch, from: Branch, key: Seq<char>)
    requires
        keys_differ(from),
    ensures
        found(completed(into, from), key) == joined(found(into, key), found(from, key)),
{
    let keys = keys_in(from);
    lemma_joined_by(into, from, keys.len(), key);
    lemma_keys_in(from);
    assert(keys.take(keys.len() as int) =~= keys);
}

proof fn lemma_complete_by_itself(b: Branch, n: nat)
    requires
        keys_differ_throughout(b),
        n <= keys_in(b).len(),
    ensures
        completed_by(b, b, n) == b,
    decreases b, n,
{
    if n > 0 {
        lemma_complete_by_itself(b, (n - 1) as nat);
        lemma_keys_in(b);
        let key = keys_in(b)[n - 1];
        assert(!(found(b, key) is Nothing));
        if let Node::Table(sub) = found(b, key) {
            lemma_found_is_less(b, key);
            lemma_first_index(b.entries, |x: Entry| x.key == key);
            assert(b.entries[place_of(b, key)].node is Table);
            lemma_complete_by_itself(sub, keys_in(sub).len());
            assert(with_node(b, key, Node::Table(sub)).entries =~= b.entries);
        }
    }
}

proof fn lemma_complete_already(into: Branch, from: Branch, n: nat)
    requires
        keys_differ_throughout(from),
        n <= keys_in(from).len(),
    ensures
        completed_by(completed(into, from), from, n) == completed(into, from),
    decreases from, n,
{
    if n > 0 {
        let c = completed(into, from);
        lemma_complete_already(into, from, (n - 1) as nat);
        lemma_keys_in(from);
        let key = keys_in(from)[n - 1];
        assert(!(found(from, key) is Nothing));
        lemma_missing_is_added(into, from, key);
        if let (Node::Table(sub), Node::Table(other)) = (found(c, key), found(from, key)) {
            lemma_found_is_less(from, key);
            lemma_first_index(from.entries, |x: Entry| x.key == key);
            assert(from.entries[place_of(from, key)].node is Table);
            if let Node::Table(old_sub) = found(into, key) {
                lemma_complete_already(old_sub, other, keys_in(other).len());
            } else {
                lemma_complete_by_itself(other, keys_in(other).len());
            }
            assert(completed(sub, other) == sub);
            lemma_first_index(c.entries, |x: Entry| x.key == key);
            assert(with_node(c, key, Node::Table(sub)).entries =~= c.entries);
        }
    }
}

/// A table that has the keys of a completed one lacks nothing.
proof fn lemma_lacks_nothing(b: Branch, into: Branch, from: Branch, n: nat)
    requires
        keys_differ_throughout(from),
        has_keys_of(b, completed(into, from)),
        n <= keys_in(from).len(),
    ensures
        completed_by(b, from, n) == b,
    decreases from, n,
{
    if n > 0 {
        let c = completed(into, from);
        lemma_lacks_nothing(b, into, from, (n - 1) as nat);
        lemma_keys_in(from);
        let key = keys_in(from)[n - 1];
        assert(!(found(from, key) is Nothing));
        lemma_missing_is_added(into, from, key);
        lemma_first_index(c.entries, |x: Entry| x.key == key);
        let at = place_of(c, key);
        assert(c.entries[at].key == key);
        if let (Node::Table(own), Node::Table(other)) = (found(b, key), found(from, key)) {
            lemma_found_is_less(from, key);
            lemma_first_index(from.entries, |x: Entry| x.key == key);
            assert(from.entries[place_of(from, key)].node is Table);
            assert(c.entries[at].node is Table);
            if let Node::Table(old_sub) = found(into, key) {
                lemma_lacks_nothing(own, old_sub, other, keys_in(other).len());
            } else {
                lemma_complete_by_itself(other, keys_in(other).len());
                lemma_lacks_nothing(own, other, other, keys_in(other).len());
            }
            lemma_first_index(b.entries, |x: Entry| x.key == key);
            assert(with_node(b, key, Node::Table(own)).entries =~= b.entries);
        }
    }
}

/// Completing is enough once: doing it again changes nothing, not even in how the document is
/// written.
pub proof fn lemma_completing_is_idempotent(into: Tree, from: Tree)
    requires
        keys_differ_throughout(from.root),
    ensures
        completed_tree(completed_tree(into, from), from) == completed_tree(into, from),
{
    lemma_complete_already(into.root, from.root, keys_in(from.root).len());
}

/// A text that is no document is refused as such. Else what is given is the text of a document that
/// has all that was there and, by every key that was not, what a new configuration has there.
pub proof fn lemma_text_is_completed(text: Seq<char>)
    ensures
        toml_tree(text) is None ==> normalized(text) == Err::<Seq<char>, NormalizeError>(
            NormalizeError::ParseUser,
        ),
        toml_tree(text) matches Some(t) ==> match toml_tree(template_with(Seq::empty())) {
            None => normalized(text) == Err::<Seq<char>, NormalizeError>(
                NormalizeError::ParseTemplate,
            ),
            Some(new) => exists|out: Tree|
                {
                    &&& normalized(text) == Ok::<Seq<char>, NormalizeError>(
                        #[trigger] tree_text(out),
                    )
                    &&& out.ending == t.ending
                    &&& keeps(t.root, out.root)
                    &&& keys_differ(new.root) ==> forall|key: Seq<char>|
                        #![trigger found(out.root, key)]
                        found(t.root, key) is Nothing ==> found(out.root, key) == found(
                            new.root,
                            key,
                        )
                },
        },
{
    if let (Some(t), Some(new)) = (toml_tree(text), toml_tree(template_with(Seq::empty()))) {
        let out = completed_tree(t, new);
        lemma_everything_stays(t, new);
        assert(normalized(text) == Ok::<Seq<char>, NormalizeError>(tree_text(out)));
        if keys_differ(new.root) {
            assert forall|key: Seq<char>|
                #![trigger found(out.root, key)]
                found(t.root, key) is Nothing implies found(out.root, key) == found(
                new.root,
                key,
            ) by {
                lemma_missing_is_added(t.root, new.root, key);
            }
        }
    }
}

} // verus!

//! The composite document: content items, vector embeddings, and the
//! embedded graph under one metadata record, bound together by a content
//! hash over the whole serialized state.

use vstd::prelude::*;

use crate::digest::{hex_of, lemma_hex_of_len, sha256_bytes, sha256_of, to_hex};
use crate::encoding::{b64_of, encode_base64};
use crate::graph::{
    add_edge_post, add_node_post, cypher_text, fsp_found, fsp_path_witness, g_wf, join_with,
    lemma_join_push, node_views, edge_views, traverse_post, opt_view, GraphDatabase,
    GraphQueryResult, GraphView, ReferentialIntegrityError,
};
use crate::ident::fresh_uuid;
use crate::numerals::dec_digits;
use crate::numerals::u64_to_dec;
use crate::props::PropMap;
use crate::text::{contains_ci, contains_seq, lower_of};

verus! {

/// Identity and provenance of a document. The content hash starts empty and
/// is written by `calculate_content_hash`; all other fields are fixed at
/// construction.
pub struct DocumentMetadata {
    pub id: String,
    pub title: String,
    pub author: String,
    pub created: u64,
    pub content_hash: String,
    pub version: String,
}

/// The abstract value of the metadata record.
#[verifier::ext_equal]
pub ghost struct MetaView {
    pub id: Seq<char>,
    pub title: Seq<char>,
    pub author: Seq<char>,
    pub created: u64,
    pub content_hash: Seq<char>,
    pub version: Seq<char>,
}

impl View for DocumentMetadata {
    type V = MetaView;

    open spec fn view(&self) -> MetaView {
        MetaView {
            id: self.id@,
            title: self.title@,
            author: self.author@,
            created: self.created,
            content_hash: self.content_hash@,
            version: self.version@,
        }
    }
}

/// One content payload: the raw bytes kept base64-encoded, together with
/// the representative text used by search.
pub struct ContentItem {
    pub id: String,
    pub content_type: String,
    pub data: String,
    pub text_content: String,
    pub metadata: PropMap,
}

/// The abstract value of a content item.
#[verifier::ext_equal]
pub ghost struct ItemView {
    pub id: Seq<char>,
    pub content_type: Seq<char>,
    pub data: Seq<char>,
    pub text_content: Seq<char>,
    pub props: Seq<(Seq<char>, Seq<char>)>,
}

impl View for ContentItem {
    type V = ItemView;

    open spec fn view(&self) -> ItemView {
        ItemView {
            id: self.id@,
            content_type: self.content_type@,
            data: self.data@,
            text_content: self.text_content@,
            props: self.metadata@,
        }
    }
}

/// One vector index entry. The embedding holds the bit patterns of the
/// caller's 32-bit float components, one `u32` per component, so that the
/// stored state is exact and byte-recoverable.
pub struct VectorEmbedding {
    pub id: String,
    pub content: String,
    pub embedding: Vec<u32>,
    pub metadata: PropMap,
}

/// The abstract value of a vector entry.
#[verifier::ext_equal]
pub ghost struct VectorView {
    pub id: Seq<char>,
    pub content: Seq<char>,
    pub embedding: Seq<u32>,
    pub props: Seq<(Seq<char>, Seq<char>)>,
}

impl View for VectorEmbedding {
    type V = VectorView;

    open spec fn view(&self) -> VectorView {
        VectorView {
            id: self.id@,
            content: self.content@,
            embedding: self.embedding@,
            props: self.metadata@,
        }
    }
}

/// The abstract value of a whole document.
#[verifier::ext_equal]
pub ghost struct DocView {
    pub metadata: MetaView,
    pub items: Seq<ItemView>,
    pub vectors: Seq<VectorView>,
    pub graph: GraphView,
}

/// The views of a vector of content items.
pub open spec fn item_views(v: Seq<ContentItem>) -> Seq<ItemView> {
    v.map_values(|it: ContentItem| it@)
}

/// The views of a vector of vector entries.
pub open spec fn vector_views(v: Seq<VectorEmbedding>) -> Seq<VectorView> {
    v.map_values(|ve: VectorEmbedding| ve@)
}

/// The views of a vector of string pairs.
pub open spec fn pair_views(v: Seq<(String, String)>) -> Seq<(Seq<char>, Seq<char>)> {
    v.map_values(|p: (String, String)| (p.0@, p.1@))
}

/// Serialized metadata. The content hash field is deliberately left out,
/// so that writing a freshly computed hash into the record does not change
/// what the next hash computation reads.
pub open spec fn meta_serial(m: MetaView) -> Seq<char> {
    m.id + "|"@ + m.title + "|"@ + m.author + "|"@ + dec_digits(m.created as nat) + "|"@
        + m.version
}

/// Serialized property list: `key=value` entries joined by commas.
pub open spec fn props_serial(ps: Seq<(Seq<char>, Seq<char>)>) -> Seq<char> {
    join_with(ps.map_values(|p: (Seq<char>, Seq<char>)| p.0 + "="@ + p.1), ","@)
}

/// Serialized content item.
pub open spec fn item_serial(it: ItemView) -> Seq<char> {
    it.id + "|"@ + it.content_type + "|"@ + it.data + "|"@ + it.text_content + "|"@ + props_serial(
        it.props,
    )
}

/// Serialized embedding components, in decimal, joined by commas.
pub open spec fn u32s_serial(v: Seq<u32>) -> Seq<char> {
    join_with(v.map_values(|x: u32| dec_digits(x as nat)), ","@)
}

/// Serialized vector entry.
pub open spec fn vector_serial(ve: VectorView) -> Seq<char> {
    ve.id + "|"@ + ve.content + "|"@ + u32s_serial(ve.embedding) + "|"@ + props_serial(ve.props)
}

/// The full serialized document state, in fixed order: metadata, content
/// items, vector entries, and the graph's canonical text.
pub open spec fn doc_serial(d: DocView) -> Seq<char> {
    meta_serial(d.metadata) + "\n"@ + join_with(
        d.items.map_values(|it: ItemView| item_serial(it)),
        "\n"@,
    ) + "\n"@ + join_with(d.vectors.map_values(|ve: VectorView| vector_serial(ve)), "\n"@) + "\n"@
        + cypher_text(d.graph)
}

/// The document's content hash: the hex digest of its serialized state.
pub open spec fn spec_content_hash(d: DocView) -> Seq<char> {
    hex_of(sha256_of(doc_serial(d)))
}

/// Recomputing the hash after nothing but a hash write yields the same
/// digest: the serialized state never reads the stored hash, so the digest
/// depends only on content, vectors, graph, and the fixed metadata fields.
pub proof fn lemma_content_hash_stable(d1: DocView, d2: DocView)
    requires
        d1.items == d2.items,
        d1.vectors == d2.vectors,
        d1.graph == d2.graph,
        d1.metadata.id == d2.metadata.id,
        d1.metadata.title == d2.metadata.title,
        d1.metadata.author == d2.metadata.author,
        d1.metadata.created == d2.metadata.created,
        d1.metadata.version == d2.metadata.version,
    ensures
        spec_content_hash(d1) == spec_content_hash(d2),
{
    assert(meta_serial(d1.metadata) == meta_serial(d2.metadata));
    assert(doc_serial(d1) == doc_serial(d2));
}

/// Appending a content item strictly lengthens the serialized state the
/// digest reads, so the pre-image differs; that the digest itself then
/// differs rests on the hash function, which no contract states.
pub proof fn lemma_doc_serial_grows(d1: DocView, d2: DocView, it: ItemView)
    requires
        d2.items == d1.items.push(it),
        d2.vectors == d1.vectors,
        d2.graph == d1.graph,
        d2.metadata.id == d1.metadata.id,
        d2.metadata.title == d1.metadata.title,
        d2.metadata.author == d1.metadata.author,
        d2.metadata.created == d1.metadata.created,
        d2.metadata.version == d1.metadata.version,
    ensures
        doc_serial(d2).len() > doc_serial(d1).len(),
        doc_serial(d2) != doc_serial(d1),
{
    reveal_strlit("|");
    assert(meta_serial(d2.metadata) == meta_serial(d1.metadata));
    let parts1 = d1.items.map_values(|it2: ItemView| item_serial(it2));
    let parts2 = d2.items.map_values(|it2: ItemView| item_serial(it2));
    assert(parts2 =~= parts1.push(item_serial(it)));
    lemma_join_push(parts1, item_serial(it), "\n"@);
    assert(item_serial(it).len() >= 4) by {
        assert(("|")@.len() == 1);
    }
    if parts1.len() == 0 {
        assert(join_with(parts1, "\n"@).len() == 0);
        assert(join_with(parts2, "\n"@) == item_serial(it));
    } else {
        reveal_strlit("\n");
        assert(join_with(parts2, "\n"@) == join_with(parts1, "\n"@) + "\n"@ + item_serial(it));
    }
    assert(join_with(parts2, "\n"@).len() > join_with(parts1, "\n"@).len());
    assert(doc_serial(d2).len() > doc_serial(d1).len());
}

/// Appends `key=value` pairs joined by commas.
fn append_props_serial(out: &mut String, props: &PropMap)
    ensures
        final(out)@ == old(out)@ + props_serial(props@),
{
    let ghost base = out@;
    let ghost parts = props@.map_values(|p: (Seq<char>, Seq<char>)| p.0 + "="@ + p.1);
    let n = props.len();
    proof {
        assert(out@ =~= base + join_with(parts.take(0), ","@));
    }
    let mut i: usize = 0;
    while i < n
        invariant
            n == props@.len(),
            i <= n,
            parts == props@.map_values(|p: (Seq<char>, Seq<char>)| p.0 + "="@ + p.1),
            out@ == base + join_with(parts.take(i as int), ","@),
        decreases n - i,
    {
        if i > 0 {
            out.append(",");
        }
        out.append(props.key_at(i).as_str());
        out.append("=");
        out.append(props.value_at(i).as_str());
        proof {
            assert(parts[i as int] == props@[i as int].0 + "="@ + props@[i as int].1);
            assert(parts.take(i as int + 1) =~= parts.take(i as int).push(parts[i as int]));
            lemma_join_push(parts.take(i as int), parts[i as int], ","@);
            assert(out@ =~= base + join_with(parts.take(i as int + 1), ","@));
        }
        i += 1;
    }
    proof {
        assert(parts.take(n as int) =~= parts);
    }
}

/// Appends one serialized content item.
fn append_item_serial(out: &mut String, it: &ContentItem)
    ensures
        final(out)@ == old(out)@ + item_serial(it@),
{
    let ghost base = out@;
    out.append(it.id.as_str());
    out.append("|");
    out.append(it.content_type.as_str());
    out.append("|");
    out.append(it.data.as_str());
    out.append("|");
    out.append(it.text_content.as_str());
    out.append("|");
    append_props_serial(out, &it.metadata);
    assert(out@ =~= base + item_serial(it@));
}

/// Appends the serialized embedding components.
fn append_u32s_serial(out: &mut String, v: &Vec<u32>)
    ensures
        final(out)@ == old(out)@ + u32s_serial(v@),
{
    let ghost base = out@;
    let ghost parts = v@.map_values(|x: u32| dec_digits(x as nat));
    let n = v.len();
    proof {
        assert(out@ =~= base + join_with(parts.take(0), ","@));
    }
    let mut i: usize = 0;
    while i < n
        invariant
            n == v@.len(),
            i <= n,
            parts == v@.map_values(|x: u32| dec_digits(x as nat)),
            out@ == base + join_with(parts.take(i as int), ","@),
        decreases n - i,
    {
        if i > 0 {
            out.append(",");
        }
        let t = u64_to_dec(v[i] as u64);
        out.append(t.as_str());
        proof {
            assert(parts[i as int] == dec_digits(v@[i as int] as nat));
            assert(parts.take(i as int + 1) =~= parts.take(i as int).push(parts[i as int]));
            lemma_join_push(parts.take(i as int), parts[i as int], ","@);
            assert(out@ =~= base + join_with(parts.take(i as int + 1), ","@));
        }
        i += 1;
    }
    proof {
        assert(parts.take(n as int) =~= parts);
    }
}

/// Appends one serialized vector entry.
fn append_vector_serial(out: &mut String, ve: &VectorEmbedding)
    ensures
        final(out)@ == old(out)@ + vector_serial(ve@),
{
    let ghost base = out@;
    out.append(ve.id.as_str());
    out.append("|");
    out.append(ve.content.as_str());
    out.append("|");
    append_u32s_serial(out, &ve.embedding);
    out.append("|");
    append_props_serial(out, &ve.metadata);
    assert(out@ =~= base + vector_serial(ve@));
}

/// The composite document.
pub struct MadDocument {
    metadata: DocumentMetadata,
    content_items: Vec<ContentItem>,
    vectors: Vec<VectorEmbedding>,
    graph_db: GraphDatabase,
}

impl View for MadDocument {
    type V = DocView;

    closed spec fn view(&self) -> DocView {
        DocView {
            metadata: self.metadata@,
            items: item_views(self.content_items@),
            vectors: vector_views(self.vectors@),
            graph: self.graph_db@,
        }
    }
}

/// An item matches a query when the folded query occurs in its folded text.
pub open spec fn item_matches(it: ItemView, q: Seq<char>) -> bool {
    contains_seq(lower_of(it.text_content), lower_of(q))
}

/// The `(id, content_type)` pairs of the items matching the query, in
/// insertion order.
pub open spec fn search_hits(items: Seq<ItemView>, q: Seq<char>) -> Seq<(Seq<char>, Seq<char>)> {
    items.filter(|it: ItemView| item_matches(it, q)).map_values(
        |it: ItemView| (it.id, it.content_type),
    )
}

impl MadDocument {
    /// The document's internal invariant: its graph is well formed.
    pub open spec fn wf(&self) -> bool {
        g_wf(self@.graph)
    }

    /// A fresh, empty document. The identifier is generated; the creation
    /// instant is the caller's to supply.
    pub fn new(title: &str, author: &str, created: u64) -> (r: MadDocument)
        ensures
            r.wf(),
            r@.metadata.id.len() == 36,
            r@.metadata.title == title@,
            r@.metadata.author == author@,
            r@.metadata.created == created,
            r@.metadata.content_hash == Seq::<char>::empty(),
            r@.metadata.version == "1.0"@,
            r@.items.len() == 0,
            r@.vectors.len() == 0,
            r@.graph.nodes.len() == 0,
            r@.graph.edges.len() == 0,
    {
        let id = fresh_uuid();
        let metadata = DocumentMetadata {
            id,
            title: title.to_owned(),
            author: author.to_owned(),
            created,
            content_hash: String::new(),
            version: String::from_str("1.0"),
        };
        let r = MadDocument {
            metadata,
            content_items: Vec::new(),
            vectors: Vec::new(),
            graph_db: GraphDatabase::new(),
        };
        proof {
            assert(r@.items =~= Seq::<ItemView>::empty());
            assert(r@.vectors =~= Seq::<VectorView>::empty());
        }
        r
    }

    /// The in-memory stores need no initialization; the state is unchanged.
    pub fn init_databases(&mut self)
        ensures
            final(self)@ == old(self)@,
    {
    }

    /// Appends a content item with a fresh identifier, the bytes kept
    /// base64-encoded, and returns the identifier.
    pub fn add_content(&mut self, content_type: &str, data: &[u8], text_content: &str) -> (r:
        String)
        ensures
            final(self)@.metadata == old(self)@.metadata,
            final(self)@.vectors == old(self)@.vectors,
            final(self)@.graph == old(self)@.graph,
            final(self)@.items.len() == old(self)@.items.len() + 1,
            final(self)@.items == old(self)@.items.push(final(self)@.items.last()),
            final(self)@.items.last().id == r@,
            final(self)@.items.last().content_type == content_type@,
            final(self)@.items.last().data == b64_of(data@),
            final(self)@.items.last().text_content == text_content@,
            final(self)@.items.last().props == Seq::<(Seq<char>, Seq<char>)>::empty(),
            r@.len() == 36,
    {
        let id = fresh_uuid();
        let item = ContentItem {
            id: id.clone(),
            content_type: content_type.to_owned(),
            data: encode_base64(data),
            text_content: text_content.to_owned(),
            metadata: PropMap::new(),
        };
        let ghost iv = item@;
        self.content_items.push(item);
        proof {
            assert(self@.items =~= old(self)@.items.push(iv));
        }
        id
    }

    /// Appends a vector entry; the embedding holds the bit patterns of the
    /// caller's float components.
    pub fn add_vector_embedding(&mut self, content_id: &str, content: &str, embedding: Vec<u32>)
        ensures
            final(self)@.metadata == old(self)@.metadata,
            final(self)@.items == old(self)@.items,
            final(self)@.graph == old(self)@.graph,
            final(self)@.vectors == old(self)@.vectors.push(final(self)@.vectors.last()),
            final(self)@.vectors.last().id == content_id@,
            final(self)@.vectors.last().content == content@,
            final(self)@.vectors.last().embedding == embedding@,
            final(self)@.vectors.last().props == Seq::<(Seq<char>, Seq<char>)>::empty(),
    {
        let ve = VectorEmbedding {
            id: content_id.to_owned(),
            content: content.to_owned(),
            embedding,
            metadata: PropMap::new(),
        };
        let ghost vv = ve@;
        self.vectors.push(ve);
        proof {
            assert(self@.vectors =~= old(self)@.vectors.push(vv));
        }
    }

    /// Forwards to the graph store's `add_node`.
    pub fn add_graph_node(&mut self, id: &str, label: &str, properties: PropMap)
        requires
            old(self).wf(),
            properties.wf(),
        ensures
            final(self).wf(),
            add_node_post(old(self)@.graph, final(self)@.graph, id@, label@, properties@),
            final(self)@.metadata == old(self)@.metadata,
            final(self)@.items == old(self)@.items,
            final(self)@.vectors == old(self)@.vectors,
    {
        self.graph_db.add_node(id, label, properties);
    }

    /// Forwards to the graph store's `add_edge`; the referential-integrity
    /// error propagates verbatim.
    pub fn add_graph_edge(&mut self, from: &str, to: &str, relationship: &str, properties: PropMap)
        -> (r: Result<String, ReferentialIntegrityError>)
        requires
            old(self).wf(),
            properties.wf(),
            old(self)@.graph.edges.len() < usize::MAX,
        ensures
            final(self).wf(),
            add_edge_post(
                old(self)@.graph,
                final(self)@.graph,
                from@,
                to@,
                relationship@,
                properties@,
                r,
            ),
            final(self)@.metadata == old(self)@.metadata,
            final(self)@.items == old(self)@.items,
            final(self)@.vectors == old(self)@.vectors,
    {
        self.graph_db.add_edge(from, to, relationship, properties)
    }

    /// Forwards to the graph store's breadth-first `traverse`.
    pub fn query_graph(
        &self,
        start_node: &str,
        max_depth: usize,
        relationship_filter: Option<String>,
    ) -> (r: GraphQueryResult)
        requires
            self.wf(),
        ensures
            traverse_post(
                self@.graph,
                start_node@,
                max_depth as int,
                opt_view(relationship_filter),
                node_views(r.nodes@),
                edge_views(r.edges@),
                r.paths@.len() as int,
            ),
    {
        self.graph_db.traverse(start_node, max_depth, relationship_filter)
    }

    /// Forwards to the graph store's `find_shortest_path`.
    pub fn find_path(&self, start: &str, end: &str, relationship_filter: Option<String>) -> (r:
        GraphQueryResult)
        requires
            self.wf(),
        ensures
            fsp_found(self@.graph, start@, end@, opt_view(relationship_filter)) ==> {
                &&& r.paths@.len() == 1
                &&& (exists|pe: Seq<usize>|
                    fsp_path_witness(
                        self@.graph,
                        start@,
                        end@,
                        opt_view(relationship_filter),
                        pe,
                        node_views(r.nodes@),
                        edge_views(r.edges@),
                    ))
                &&& node_views(r.paths@[0].nodes@) == node_views(r.nodes@)
                &&& edge_views(r.paths@[0].edges@) == edge_views(r.edges@)
                &&& r.paths@[0].length == r.edges@.len()
                &&& r.nodes@.len() == r.edges@.len() + 1
            },
            !fsp_found(self@.graph, start@, end@, opt_view(relationship_filter)) ==> r.nodes@.len()
                == 0 && r.edges@.len() == 0 && r.paths@.len() == 0,
    {
        self.graph_db.find_shortest_path(start, end, relationship_filter)
    }

    /// Case-insensitive substring search over the items' text, returning
    /// `(id, content_type)` pairs in insertion order.
    pub fn search_content(&self, query: &str) -> (r: Vec<(String, String)>)
        ensures
            pair_views(r@) == search_hits(self@.items, query@),
    {
        let ghost items = self@.items;
        let ghost q = query@;
        let ghost pred = |it: ItemView| item_matches(it, q);
        let ghost pmap = |it: ItemView| (it.id, it.content_type);
        let mut r: Vec<(String, String)> = Vec::new();
        let n = self.content_items.len();
        proof {
            reveal_with_fuel(Seq::<ItemView>::filter, 3);
            assert(items.take(0).filter(pred) =~= Seq::<ItemView>::empty());
            assert(pair_views(r@) =~= items.take(0).filter(pred).map_values(pmap));
        }
        let mut i: usize = 0;
        while i < n
            invariant
                items == self@.items,
                q == query@,
                pred == (|it: ItemView| item_matches(it, q)),
                pmap == (|it: ItemView| (it.id, it.content_type)),
                n == self.content_items@.len(),
                n == items.len(),
                i <= n,
                pair_views(r@) == items.take(i as int).filter(pred).map_values(pmap),
            decreases n - i,
        {
            let ghost prefix = items.take(i as int);
            let it = &self.content_items[i];
            assert(it@ == items[i as int]);
            let ghost r0 = pair_views(r@);
            let hit = contains_ci(it.text_content.as_str(), query);
            if hit {
                r.push((it.id.clone(), it.content_type.clone()));
            }
            proof {
                reveal_with_fuel(Seq::<ItemView>::filter, 3);
                assert(items.take(i as int + 1) =~= prefix.push(items[i as int]));
                assert(prefix.push(items[i as int]).drop_last() =~= prefix);
                if hit {
                    assert(pred(items[i as int]));
                    assert(pair_views(r@) =~= r0.push((items[i as int].id, items[
                        i as int
                    ].content_type)));
                    assert(pair_views(r@) =~= items.take(i as int + 1).filter(pred).map_values(
                        pmap,
                    ));
                } else {
                    assert(!pred(items[i as int]));
                    assert(pair_views(r@) =~= items.take(i as int + 1).filter(pred).map_values(
                        pmap,
                    ));
                }
            }
            i += 1;
        }
        proof {
            assert(items.take(n as int) =~= items);
        }
        r
    }

    /// A copy of the metadata record.
    pub fn get_metadata(&self) -> (r: DocumentMetadata)
        ensures
            r@ == self@.metadata,
    {
        DocumentMetadata {
            id: self.metadata.id.clone(),
            title: self.metadata.title.clone(),
            author: self.metadata.author.clone(),
            created: self.metadata.created,
            content_hash: self.metadata.content_hash.clone(),
            version: self.metadata.version.clone(),
        }
    }

    /// The stored content items.
    pub fn content_items(&self) -> (r: &Vec<ContentItem>)
        ensures
            item_views(r@) == self@.items,
    {
        &self.content_items
    }

    /// The stored vector entries.
    pub fn vectors(&self) -> (r: &Vec<VectorEmbedding>)
        ensures
            vector_views(r@) == self@.vectors,
    {
        &self.vectors
    }

    /// The serialized document state that the content hash reads.
    fn doc_serial_string(&self) -> (r: String)
        requires
            self.wf(),
        ensures
            r@ == doc_serial(self@),
    {
        let ghost d = self@;
        let ghost iparts = d.items.map_values(|it: ItemView| item_serial(it));
        let ghost vparts = d.vectors.map_values(|ve: VectorView| vector_serial(ve));
        let mut out = String::new();
        out.append(self.metadata.id.as_str());
        out.append("|");
        out.append(self.metadata.title.as_str());
        out.append("|");
        out.append(self.metadata.author.as_str());
        out.append("|");
        let created_text = u64_to_dec(self.metadata.created);
        out.append(created_text.as_str());
        out.append("|");
        out.append(self.metadata.version.as_str());
        out.append("\n");
        let ghost base1 = out@;
        proof {
            assert(base1 =~= meta_serial(d.metadata) + "\n"@);
            assert(out@ =~= base1 + join_with(iparts.take(0), "\n"@));
        }
        let n = self.content_items.len();
        let mut i: usize = 0;
        while i < n
            invariant
                d == self@,
                iparts == d.items.map_values(|it: ItemView| item_serial(it)),
                n == self.content_items@.len(),
                n == d.items.len(),
                i <= n,
                out@ == base1 + join_with(iparts.take(i as int), "\n"@),
            decreases n - i,
        {
            if i > 0 {
                out.append("\n");
            }
            append_item_serial(&mut out, &self.content_items[i]);
            proof {
                assert(self.content_items@[i as int]@ == d.items[i as int]);
                assert(iparts[i as int] == item_serial(d.items[i as int]));
                assert(iparts.take(i as int + 1) =~= iparts.take(i as int).push(iparts[i as int]));
                lemma_join_push(iparts.take(i as int), iparts[i as int], "\n"@);
                assert(out@ =~= base1 + join_with(iparts.take(i as int + 1), "\n"@));
            }
            i += 1;
        }
        out.append("\n");
        let ghost base2 = out@;
        proof {
            assert(iparts.take(n as int) =~= iparts);
            assert(base2 =~= meta_serial(d.metadata) + "\n"@ + join_with(iparts, "\n"@) + "\n"@);
            assert(out@ =~= base2 + join_with(vparts.take(0), "\n"@));
        }
        let m = self.vectors.len();
        let mut j: usize = 0;
        while j < m
            invariant
                d == self@,
                vparts == d.vectors.map_values(|ve: VectorView| vector_serial(ve)),
                m == self.vectors@.len(),
                m == d.vectors.len(),
                j <= m,
                out@ == base2 + join_with(vparts.take(j as int), "\n"@),
            decreases m - j,
        {
            if j > 0 {
                out.append("\n");
            }
            append_vector_serial(&mut out, &self.vectors[j]);
            proof {
                assert(self.vectors@[j as int]@ == d.vectors[j as int]);
                assert(vparts[j as int] == vector_serial(d.vectors[j as int]));
                assert(vparts.take(j as int + 1) =~= vparts.take(j as int).push(vparts[j as int]));
                lemma_join_push(vparts.take(j as int), vparts[j as int], "\n"@);
                assert(out@ =~= base2 + join_with(vparts.take(j as int + 1), "\n"@));
            }
            j += 1;
        }
        out.append("\n");
        let cy = self.graph_db.export_cypher();
        out.append(cy.as_str());
        proof {
            assert(vparts.take(m as int) =~= vparts);
            assert(out@ =~= doc_serial(d));
        }
        out
    }

    /// Computes the content hash over the full serialized state, writes it
    /// into the metadata, and returns it. Recomputing with no intervening
    /// mutation returns the same digest.
    pub fn calculate_content_hash(&mut self) -> (r: String)
        requires
            old(self).wf(),
        ensures
            final(self).wf(),
            r@ == spec_content_hash(old(self)@),
            r@.len() == 64,
            final(self)@.metadata.content_hash == r@,
            final(self)@.metadata.id == old(self)@.metadata.id,
            final(self)@.metadata.title == old(self)@.metadata.title,
            final(self)@.metadata.author == old(self)@.metadata.author,
            final(self)@.metadata.created == old(self)@.metadata.created,
            final(self)@.metadata.version == old(self)@.metadata.version,
            final(self)@.items == old(self)@.items,
            final(self)@.vectors == old(self)@.vectors,
            final(self)@.graph == old(self)@.graph,
            spec_content_hash(final(self)@) == spec_content_hash(old(self)@),
    {
        let serial = self.doc_serial_string();
        let digest = sha256_bytes(serial.as_str());
        let hash = to_hex(&digest);
        self.metadata.content_hash = hash.clone();
        proof {
            lemma_content_hash_stable(self@, old(self)@);
            lemma_hex_of_len(sha256_of(serial@));
        }
        hash
    }
}

} // verus!

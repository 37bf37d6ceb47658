use vstd::prelude::*;
use vstd::string::*;

use crate::builder::{
    net_view, spec_build, BuilderView, NetView, PetriNetArcBuilder, PetriNetBuilder, PetriNetNodeBuilder,
    PetriNetTransitionBuilder,
};
use crate::petri_net::PetriNet;

verus! {

/// One node of an XML document: whether it is an element, its local tag name (empty for other
/// nodes), its attributes by local name in order, its text, and the numbers of its children.
pub struct XmlNodeData {
    pub is_element: bool,
    pub name: String,
    pub attributes: Vec<(String, String)>,
    pub text: Option<String>,
    pub children: Vec<usize>,
}

/// An XML document as its nodes in document order, the document node first; a node's number
/// is its position.
pub struct XmlDocument {
    pub nodes: Vec<XmlNodeData>,
}

/// The document that an XML text parses to, or `None` when it is not well formed.
pub uninterp spec fn xml_parse_result(xml: Seq<char>) -> Option<XmlDocument>;

/// `roxmltree::Document::parse`, with each node of `descendants()` (document order) copied
/// out: element or not, local tag name, attributes by local name, `text()`, and the numbers
/// (`NodeId::get_usize`, which follow document order) of its children. The result is named,
/// not described.
#[verifier::external_body]
fn parse_xml(xml: &str) -> (r: Option<XmlDocument>)
    ensures
        r == xml_parse_result(xml@),
{
    let doc = roxmltree::Document::parse(xml).ok()?;
    let nodes = doc.descendants().map(|n| XmlNodeData {
        is_element: n.is_element(),
        name: n.tag_name().name().to_string(),
        attributes: n.attributes().map(|a| (a.name().to_string(), a.value().to_string())).collect(),
        text: n.text().map(|t| t.to_string()),
        children: n.children().map(|c| c.id().get_usize()).collect(),
    }).collect();
    Some(XmlDocument { nodes })
}

/// The decimal digits.
pub open spec fn is_digit(c: char) -> bool {
    '0' <= c <= '9'
}

/// The value of a string of decimal digits.
pub open spec fn digits_value(s: Seq<char>) -> int
    decreases s.len(),
{
    if s.len() == 0 {
        0
    } else {
        digits_value(s.drop_last()) * 10 + (s.last() as int - '0' as int)
    }
}

/// What `str::parse::<u32>` gives: the value of one or more decimal digits, after at most one
/// `+`, when it fits in `u32`.
pub open spec fn parse_u32_spec(s: Seq<char>) -> Option<u32> {
    let d = sign_stripped(s);
    if d.len() > 0 && all_digits(d) && digits_value(d) <= u32::MAX {
        Some(digits_value(d) as u32)
    } else {
        None
    }
}

/// The text without one leading `+`.
pub open spec fn sign_stripped(s: Seq<char>) -> Seq<char> {
    if s.len() > 0 && s[0] == '+' {
        s.drop_first()
    } else {
        s
    }
}

/// Every character is a decimal digit.
pub open spec fn all_digits(d: Seq<char>) -> bool {
    forall|i: int| 0 <= i < d.len() ==> is_digit(#[trigger] d[i])
}

pub proof fn lemma_digits_value_mono(s: Seq<char>, n: int)
    requires
        0 <= n <= s.len(),
        forall|i: int| 0 <= i < s.len() ==> is_digit(#[trigger] s[i]),
    ensures
        digits_value(s.take(n)) <= digits_value(s),
        0 <= digits_value(s.take(n)),
    decreases s.len(),
{
    if n < s.len() {
        assert(forall|i: int| 0 <= i < s.drop_last().len() ==> is_digit(#[trigger] s.drop_last()[i]) ) by {
            assert forall|i: int| 0 <= i < s.drop_last().len() implies is_digit(#[trigger] s.drop_last()[i]) by {
                assert(s.drop_last()[i] == s[i]);
            }
        }
        lemma_digits_value_mono(s.drop_last(), n);
        assert(s.drop_last().take(n) =~= s.take(n));
        assert(is_digit(s.last()));
        lemma_digits_value_mono(s.drop_last(), s.len() - 1);
        assert(s.drop_last().take(s.len() - 1) =~= s.drop_last());
    } else {
        assert(s.take(n) =~= s);
        lemma_digits_nonneg(s);
    }
}

proof fn lemma_digits_nonneg(s: Seq<char>)
    requires
        forall|i: int| 0 <= i < s.len() ==> is_digit(#[trigger] s[i]),
    ensures
        0 <= digits_value(s),
    decreases s.len(),
{
    if s.len() > 0 {
        assert forall|i: int| 0 <= i < s.drop_last().len() implies is_digit(#[trigger] s.drop_last()[i]) by {
            assert(s.drop_last()[i] == s[i]);
        }
        lemma_digits_nonneg(s.drop_last());
        assert(is_digit(s.last()));
    }
}

/// `str::parse::<u32>`: decimal digits after at most one `+`, `None` when there are none, when
/// another character occurs, or when the value does not fit.
pub fn parse_u32(s: &str) -> (r: Option<u32>)
    ensures
        r == parse_u32_spec(s@),
{
    let n = s.unicode_len();
    let mut start: usize = 0;
    if n > 0 && s.get_char(0) == '+' {
        start = 1;
    }
    let ghost d = sign_stripped(s@);
    assert(d =~= s@.subrange(start as int, n as int));
    if start >= n {
        return None;
    }
    let mut value: u64 = 0;
    let mut i: usize = start;
    while i < n
        invariant
            n == s@.len(),
            start <= i <= n,
            start < n,
            d == s@.subrange(start as int, n as int),
            d == sign_stripped(s@),
            forall|j: int| 0 <= j < i - start ==> is_digit(#[trigger] d[j]),
            value == digits_value(d.take(i - start)),
            value <= u32::MAX,
        decreases n - i,
    {
        let c = s.get_char(i);
        assert(c == d[i - start]);
        if !('0' <= c && c <= '9') {
            assert(!is_digit(d[i - start]));
            assert(!all_digits(d));
            assert(parse_u32_spec(s@) is None);
            return None;
        }
        let digit = (c as u32 - '0' as u32) as u64;
        assert(d.take(i - start + 1).drop_last() =~= d.take(i - start));
        value = value * 10 + digit;
        assert(value == digits_value(d.take(i - start + 1)));
        if value > u32::MAX as u64 {
            proof {
                assert forall|j: int| 0 <= j < i - start + 1 implies is_digit(#[trigger] d[j]) by {}
                if all_digits(d) {
                    lemma_digits_value_mono(d, i - start + 1);
                    assert(digits_value(d) > u32::MAX);
                }
                assert(parse_u32_spec(s@) is None);
            }
            return None;
        }
        i = i + 1;
    }
    assert(d.take(n - start) =~= d);
    Some(value as u32)
}

/// The value of the first attribute with the given name.
pub open spec fn attr_value(attrs: Seq<(String, String)>, key: Seq<char>) -> Option<Seq<char>>
    decreases attrs.len(),
{
    if attrs.len() == 0 {
        None
    } else if attrs[0].0@ == key {
        Some(attrs[0].1@)
    } else {
        attr_value(attrs.drop_first(), key)
    }
}

/// The attribute's value, or the empty text.
pub open spec fn attr_or_empty(nd: XmlNodeData, key: Seq<char>) -> Seq<char> {
    match attr_value(nd.attributes@, key) {
        Some(v) => v,
        None => seq![],
    }
}

/// Node `c` is an element with the given tag name.
pub open spec fn is_element_named(doc: XmlDocument, c: int, name: Seq<char>) -> bool {
    0 <= c < doc.nodes@.len() && doc.nodes@[c].is_element && doc.nodes@[c].name@ == name
}

/// The text of the first `text` child element, or the empty text.
pub open spec fn text_in(doc: XmlDocument, kids: Seq<usize>) -> Seq<char>
    decreases kids.len(),
{
    if kids.len() == 0 {
        seq![]
    } else if is_element_named(doc, kids[0] as int, "text"@) {
        match doc.nodes@[kids[0] as int].text {
            Some(t) => t@,
            None => seq![],
        }
    } else {
        text_in(doc, kids.drop_first())
    }
}

/// The text of a node with a `text` child.
pub open spec fn text_of(doc: XmlDocument, i: int) -> Seq<char> {
    text_in(doc, doc.nodes@[i].children@)
}

/// The tokens of a place: the last `initialMarking` child read as a number, 0 when it does
/// not read as one or there is none.
pub open spec fn place_tokens(doc: XmlDocument, kids: Seq<usize>) -> u32
    decreases kids.len(),
{
    if kids.len() == 0 {
        0
    } else if is_element_named(doc, kids.last() as int, "initialMarking"@) {
        match parse_u32_spec(text_of(doc, kids.last() as int)) {
            Some(v) => v,
            None => 0,
        }
    } else {
        place_tokens(doc, kids.drop_last())
    }
}

/// The builder after reading the children of a page.
pub open spec fn page_fold(doc: XmlDocument, kids: Seq<usize>, b: BuilderView) -> BuilderView
    decreases kids.len(),
{
    if kids.len() == 0 {
        b
    } else {
        let p = page_fold(doc, kids.drop_last(), b);
        let c = kids.last() as int;
        if is_element_named(doc, c, "place"@) {
            BuilderView {
                nodes: p.nodes.push(
                    (attr_or_empty(doc.nodes@[c], "id"@), place_tokens(doc, doc.nodes@[c].children@)),
                ),
                ..p
            }
        } else if is_element_named(doc, c, "transition"@) {
            BuilderView { transitions: p.transitions.push(attr_or_empty(doc.nodes@[c], "id"@)), ..p }
        } else if is_element_named(doc, c, "arc"@) {
            BuilderView {
                edges: p.edges.push(
                    (attr_or_empty(doc.nodes@[c], "source"@), attr_or_empty(doc.nodes@[c], "target"@)),
                ),
                ..p
            }
        } else {
            p
        }
    }
}

/// The builder after reading the children of a net: names and pages.
pub open spec fn net_fold(doc: XmlDocument, kids: Seq<usize>, b: BuilderView) -> BuilderView
    decreases kids.len(),
{
    if kids.len() == 0 {
        b
    } else {
        let p = net_fold(doc, kids.drop_last(), b);
        let c = kids.last() as int;
        if is_element_named(doc, c, "name"@) {
            BuilderView { name: text_of(doc, c), ..p }
        } else if is_element_named(doc, c, "page"@) {
            page_fold(doc, doc.nodes@[c].children@, p)
        } else {
            p
        }
    }
}

/// The builder of a `net` element.
pub open spec fn net_builder(doc: XmlDocument, i: int) -> BuilderView {
    net_fold(
        doc,
        doc.nodes@[i].children@,
        BuilderView {
            id: attr_or_empty(doc.nodes@[i], "id"@),
            name: seq![],
            nodes: seq![],
            transitions: seq![],
            edges: seq![],
        },
    )
}

/// The builders of the `net` elements among the first `n` nodes, in document order.
pub open spec fn net_builders(doc: XmlDocument, n: nat) -> Seq<BuilderView>
    decreases n,
{
    if n == 0 {
        seq![]
    } else {
        let p = net_builders(doc, (n - 1) as nat);
        if is_element_named(doc, n - 1, "net"@) {
            p.push(net_builder(doc, n - 1))
        } else {
            p
        }
    }
}

/// Every builder fits the numbering of places and transitions by `u32`.
pub open spec fn builders_fit(bs: Seq<BuilderView>) -> bool {
    forall|k: int| 0 <= k < bs.len() ==> (#[trigger] bs[k]).nodes.len() <= u32::MAX && bs[k].transitions.len() <= u32::MAX
}

/// The nets of an XML text, one per `net` element in document order.
pub open spec fn xml_nets(xml: Seq<char>) -> Seq<NetView> {
    let doc = xml_parse_result(xml)->Some_0;
    net_builders(doc, doc.nodes@.len()).map_values(|b: BuilderView| spec_build(b))
}

/// The text parses and its nets can be built.
pub open spec fn xml_ok(xml: Seq<char>) -> bool {
    &&& xml_parse_result(xml) is Some
    &&& builders_fit(net_builders(xml_parse_result(xml)->Some_0, xml_parse_result(xml)->Some_0.nodes@.len()))
}

fn copy_string(s: &String) -> (r: String)
    ensures
        r@ == s@,
{
    s.clone()
}

fn attribute_or_empty(nd: &XmlNodeData, key: &str) -> (r: String)
    ensures
        r@ == attr_or_empty(*nd, key@),
{
    let mut i: usize = 0;
    assert(nd.attributes@.skip(0) =~= nd.attributes@);
    while i < nd.attributes.len()
        invariant
            i <= nd.attributes@.len(),
            attr_value(nd.attributes@, key@) == attr_value(nd.attributes@.skip(i as int), key@),
        decreases nd.attributes.len() - i,
    {
        let pair = &nd.attributes[i];
        let ghost rest = nd.attributes@.skip(i as int);
        assert(rest[0] == *pair);
        assert(rest.drop_first() =~= nd.attributes@.skip(i + 1));
        if str_equal(pair.0.as_str(), key) {
            return copy_string(&pair.1);
        }
        i = i + 1;
    }
    assert(nd.attributes@.skip(i as int) =~= Seq::<(String, String)>::empty());
    String::new()
}

pub fn str_equal(a: &str, b: &str) -> (r: bool)
    ensures
        r == (a@ == b@),
{
    let n = a.unicode_len();
    let m = b.unicode_len();
    if n != m {
        return false;
    }
    let mut i: usize = 0;
    while i < n
        invariant
            n == a@.len(),
            m == b@.len(),
            n == m,
            i <= n,
            forall|j: int| 0 <= j < i ==> a@[j] == b@[j],
        decreases n - i,
    {
        if a.get_char(i) != b.get_char(i) {
            return false;
        }
        i = i + 1;
    }
    assert(a@ =~= b@);
    true
}

fn element_named(doc: &XmlDocument, c: usize, name: &str) -> (r: bool)
    ensures
        r == is_element_named(*doc, c as int, name@),
{
    if c >= doc.nodes.len() {
        return false;
    }
    let nd = &doc.nodes[c];
    nd.is_element && str_equal(nd.name.as_str(), name)
}

fn read_text(doc: &XmlDocument, i: usize) -> (r: String)
    requires
        i < doc.nodes@.len(),
    ensures
        r@ == text_of(*doc, i as int),
{
    let kids = &doc.nodes[i].children;
    let mut k: usize = 0;
    assert(kids@.skip(0) =~= kids@);
    while k < kids.len()
        invariant
            i < doc.nodes@.len(),
            kids@ == doc.nodes@[i as int].children@,
            k <= kids@.len(),
            text_in(*doc, kids@) == text_in(*doc, kids@.skip(k as int)),
        decreases kids.len() - k,
    {
        let c = kids[k];
        assert(kids@.skip(k as int)[0] == c);
        assert(kids@.skip(k as int).drop_first() =~= kids@.skip(k + 1));
        if element_named(doc, c, "text") {
            match &doc.nodes[c].text {
                Some(t) => {
                    return copy_string(t);
                },
                None => {
                    return String::new();
                },
            }
        }
        k = k + 1;
    }
    assert(kids@.skip(k as int) =~= Seq::<usize>::empty());
    String::new()
}

fn read_tokens(doc: &XmlDocument, i: usize) -> (r: u32)
    requires
        i < doc.nodes@.len(),
    ensures
        r == place_tokens(*doc, doc.nodes@[i as int].children@),
{
    let kids = &doc.nodes[i].children;
    let mut token: u32 = 0;
    let mut k: usize = 0;
    while k < kids.len()
        invariant
            i < doc.nodes@.len(),
            kids@ == doc.nodes@[i as int].children@,
            k <= kids@.len(),
            token == place_tokens(*doc, kids@.take(k as int)),
        decreases kids.len() - k,
    {
        let c = kids[k];
        assert(kids@.take(k + 1).drop_last() =~= kids@.take(k as int));
        assert(kids@.take(k + 1).last() == c);
        if element_named(doc, c, "initialMarking") {
            let text = read_text(doc, c);
            token = match parse_u32(text.as_str()) {
                Some(v) => v,
                None => 0,
            };
        }
        k = k + 1;
    }
    assert(kids@.take(kids@.len() as int) =~= kids@);
    token
}

fn read_page(doc: &XmlDocument, page: usize, net: &mut PetriNetBuilder)
    requires
        page < doc.nodes@.len(),
    ensures
        final(net).view_of() == page_fold(*doc, doc.nodes@[page as int].children@, old(net).view_of()),
{
    let kids = &doc.nodes[page].children;
    let mut k: usize = 0;
    while k < kids.len()
        invariant
            page < doc.nodes@.len(),
            kids@ == doc.nodes@[page as int].children@,
            k <= kids@.len(),
            net.view_of() == page_fold(*doc, kids@.take(k as int), old(net).view_of()),
        decreases kids.len() - k,
    {
        let c = kids[k];
        assert(kids@.take(k + 1).drop_last() =~= kids@.take(k as int));
        assert(kids@.take(k + 1).last() == c);
        let ghost before = net.view_of();
        if element_named(doc, c, "place") {
            let id = attribute_or_empty(&doc.nodes[c], "id");
            let token = read_tokens(doc, c);
            net.nodes.push(PetriNetNodeBuilder { id, token });
            assert(net.view_of().nodes =~= before.nodes.push((id@, token)));
        } else if element_named(doc, c, "transition") {
            let id = attribute_or_empty(&doc.nodes[c], "id");
            net.transition.push(PetriNetTransitionBuilder { id });
            assert(net.view_of().transitions =~= before.transitions.push(id@));
        } else if element_named(doc, c, "arc") {
            let source = attribute_or_empty(&doc.nodes[c], "source");
            let target = attribute_or_empty(&doc.nodes[c], "target");
            net.edges.push(PetriNetArcBuilder { source, target });
            assert(net.view_of().edges =~= before.edges.push((source@, target@)));
        }
        k = k + 1;
    }
    assert(kids@.take(kids@.len() as int) =~= kids@);
}

fn read_net(doc: &XmlDocument, i: usize) -> (r: PetriNetBuilder)
    requires
        i < doc.nodes@.len(),
    ensures
        r.view_of() == net_builder(*doc, i as int),
{
    let net_id = attribute_or_empty(&doc.nodes[i], "id");
    let mut net = PetriNetBuilder::new(net_id, String::new());
    let kids = &doc.nodes[i].children;
    let mut k: usize = 0;
    while k < kids.len()
        invariant
            i < doc.nodes@.len(),
            kids@ == doc.nodes@[i as int].children@,
            k <= kids@.len(),
            net.view_of() == net_fold(
                *doc,
                kids@.take(k as int),
                BuilderView {
                    id: attr_or_empty(doc.nodes@[i as int], "id"@),
                    name: seq![],
                    nodes: seq![],
                    transitions: seq![],
                    edges: seq![],
                },
            ),
        decreases kids.len() - k,
    {
        let c = kids[k];
        assert(kids@.take(k + 1).drop_last() =~= kids@.take(k as int));
        assert(kids@.take(k + 1).last() == c);
        if element_named(doc, c, "name") {
            net.name = read_text(doc, c);
        } else if element_named(doc, c, "page") {
            read_page(doc, c, &mut net);
        }
        k = k + 1;
    }
    assert(kids@.take(kids@.len() as int) =~= kids@);
    net
}

/// The builders of the `net` elements of a document, in document order.
fn read_nets(doc: &XmlDocument) -> (r: Vec<PetriNetBuilder>)
    ensures
        r@.map_values(|b: PetriNetBuilder| b.view_of()) == net_builders(*doc, doc.nodes@.len()),
{
    let mut nets: Vec<PetriNetBuilder> = Vec::new();
    let mut i: usize = 0;
    while i < doc.nodes.len()
        invariant
            i <= doc.nodes@.len(),
            nets@.map_values(|b: PetriNetBuilder| b.view_of()) == net_builders(*doc, i as nat),
        decreases doc.nodes.len() - i,
    {
        if element_named(doc, i, "net") {
            let ghost before = nets@.map_values(|b: PetriNetBuilder| b.view_of());
            let net = read_net(doc, i);
            nets.push(net);
            assert(nets@.map_values(|b: PetriNetBuilder| b.view_of()) =~= before.push(net_builder(*doc, i as int)));
        }
        i = i + 1;
    }
    nets
}

/// Builds each builder in turn.
fn build_all(nets: Vec<PetriNetBuilder>) -> (r: Vec<PetriNet>)
    requires
        builders_fit(nets@.map_values(|b: PetriNetBuilder| b.view_of())),
    ensures
        r@.map_values(|n: PetriNet| net_view(n)) == nets@.map_values(|b: PetriNetBuilder| spec_build(b.view_of())),
{
    let ghost all = nets@;
    let mut rest = nets;
    let mut out: Vec<PetriNet> = Vec::new();
    let ghost mut done: int = 0;
    while rest.len() > 0
        invariant
            builders_fit(all.map_values(|b: PetriNetBuilder| b.view_of())),
            0 <= done <= all.len(),
            rest@ == all.skip(done),
            out@.map_values(|n: PetriNet| net_view(n)) == all.take(done).map_values(|b: PetriNetBuilder| spec_build(b.view_of())),
        decreases rest.len(),
    {
        let b = rest.remove(0);
        assert(b == all[done]);
        assert(rest@ =~= all.skip(done + 1));
        assert(all.map_values(|b: PetriNetBuilder| b.view_of())[done] == b.view_of());
        let ghost before = out@.map_values(|n: PetriNet| net_view(n));
        let net = b.build();
        out.push(net);
        proof {
            assert(out@.map_values(|n: PetriNet| net_view(n)) =~= before.push(spec_build(all[done].view_of())));
            assert(all.take(done + 1) =~= all.take(done).push(all[done]));
            assert(all.take(done + 1).map_values(|b: PetriNetBuilder| spec_build(b.view_of())) =~= all.take(done).map_values(|b: PetriNetBuilder| spec_build(b.view_of())).push(spec_build(all[done].view_of())));
            done = done + 1;
        }
    }
    assert(all.take(done) =~= all);
    out
}

impl PetriNetBuilder {
    /// The nets of an XML text in PNML, one per `net` element in document order.
    pub fn build_from_xml(xml: &str) -> (r: Vec<PetriNet>)
        requires
            xml_ok(xml@),
        ensures
            r@.map_values(|n: PetriNet| net_view(n)) == xml_nets(xml@),
    {
        let doc = parse_xml(xml).unwrap();
        let nets = read_nets(&doc);
        let r = build_all(nets);
        proof {
            assert(nets@.map_values(|b: PetriNetBuilder| spec_build(b.view_of())) =~= net_builders(doc, doc.nodes@.len()).map_values(|b: BuilderView| spec_build(b)));
        }
        r
    }

    /// The nets of an XML text in PNML, or `None` when the text does not parse or a net has
    /// more places or transitions than `u32` can number.
    pub fn try_build_from_xml(xml: &str) -> (r: Option<Vec<PetriNet>>)
        ensures
            r is Some <==> xml_ok(xml@),
            r matches Some(v) ==> v@.map_values(|n: PetriNet| net_view(n)) == xml_nets(xml@),
    {
        let doc = match parse_xml(xml) {
            Some(d) => d,
            None => { return None; },
        };
        nets_of_document(&doc)
    }
}

/// The nets of a parsed PNML document, one per `net` element in document order, or `None` when
/// a net has more places or transitions than `u32` can number.
pub fn nets_of_document(doc: &XmlDocument) -> (r: Option<Vec<PetriNet>>)
    ensures
        r is Some <==> builders_fit(net_builders(*doc, doc.nodes@.len())),
        r matches Some(v) ==> v@.map_values(|n: PetriNet| net_view(n)) == net_builders(
            *doc,
            doc.nodes@.len(),
        ).map_values(|b: BuilderView| spec_build(b)),
{
    let nets = read_nets(doc);
    let mut k: usize = 0;
    while k < nets.len()
        invariant
            k <= nets@.len(),
            nets@.map_values(|b: PetriNetBuilder| b.view_of()) == net_builders(*doc, doc.nodes@.len()),
            forall|j: int| 0 <= j < k ==> (#[trigger] nets@[j]).nodes@.len() <= u32::MAX && nets@[j].transition@.len() <= u32::MAX,
        decreases nets.len() - k,
    {
        if nets[k].nodes.len() > u32::MAX as usize || nets[k].transition.len() > u32::MAX as usize {
            proof {
                let bs = nets@.map_values(|b: PetriNetBuilder| b.view_of());
                assert(bs[k as int] == nets@[k as int].view_of());
                assert(!builders_fit(bs));
            }
            return None;
        }
        k = k + 1;
    }
    proof {
        let bs = nets@.map_values(|b: PetriNetBuilder| b.view_of());
        assert forall|j: int| 0 <= j < bs.len() implies (#[trigger] bs[j]).nodes.len() <= u32::MAX && bs[j].transitions.len() <= u32::MAX by {
            assert(bs[j] == nets@[j].view_of());
        }
    }
    let r = build_all(nets);
    proof {
        assert(nets@.map_values(|b: PetriNetBuilder| spec_build(b.view_of())) =~= net_builders(*doc, doc.nodes@.len()).map_values(|b: BuilderView| spec_build(b)));
    }
    Some(r)
}

} // verus!

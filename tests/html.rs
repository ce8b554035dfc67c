use html5ever::tendril::{StrTendril, TendrilSink};
use html5ever::tree_builder::{ElementFlags, NodeOrText, QuirksMode as ParserQuirks, TreeSink};
use html5ever::{parse_document, Attribute as ParserAttribute, ExpandedName, QualName};
use kuchikiki::{check_only_match, Attribute, NodeData, QuirksMode, Selectors, Tree};
use std::borrow::Cow;

/// Receives the parser's events and builds a `Tree` through the library.
struct Builder {
    tree: Tree,
    names: Vec<Option<QualName>>,
}

impl Builder {
    fn new() -> Builder {
        Builder { tree: Tree::new(), names: vec![None] }
    }

    fn track(&mut self, id: usize, name: Option<QualName>) -> usize {
        self.names.resize(self.tree.len(), None);
        self.names[id] = name;
        id
    }

    fn known(&self, h: usize) -> usize {
        assert!(h < self.tree.len(), "unknown node handle {}", h);
        h
    }
}

fn chars(s: &str) -> Vec<char> {
    s.chars().collect()
}

fn string(v: &[char]) -> String {
    v.iter().collect()
}

fn attrs_of(attrs: Vec<ParserAttribute>) -> Vec<Attribute> {
    attrs
        .into_iter()
        .map(|a| Attribute { name: chars(&a.name.local), value: chars(&a.value) })
        .collect()
}

impl TreeSink for Builder {
    type Handle = usize;
    type Output = Tree;

    fn finish(self) -> Tree {
        self.tree
    }

    fn parse_error(&mut self, _msg: Cow<'static, str>) {}

    fn get_document(&mut self) -> usize {
        0
    }

    fn elem_name<'a>(&'a self, target: &'a usize) -> ExpandedName<'a> {
        self.names[*target].as_ref().expect("not an element").expanded()
    }

    fn create_element(&mut self, name: QualName, attrs: Vec<ParserAttribute>, flags: ElementFlags) -> usize {
        let id = self.tree.create_element(chars(&name.local), attrs_of(attrs), flags.template);
        self.track(id, Some(name))
    }

    fn create_comment(&mut self, text: StrTendril) -> usize {
        let id = self.tree.create(NodeData::Comment { contents: chars(&text) });
        self.track(id, None)
    }

    fn create_pi(&mut self, target: StrTendril, data: StrTendril) -> usize {
        let id = self.tree.create(NodeData::ProcessingInstruction {
            target: chars(&target),
            contents: chars(&data),
        });
        self.track(id, None)
    }

    fn append(&mut self, parent: &usize, child: NodeOrText<usize>) {
        let parent = self.known(*parent);
        match child {
            NodeOrText::AppendNode(n) => {
                let n = self.known(n);
                self.tree.append(parent, n).expect("structural violation");
            }
            NodeOrText::AppendText(text) => {
                self.tree.append_text(parent, &chars(&text));
                self.names.resize(self.tree.len(), None);
            }
        }
    }

    fn append_based_on_parent_node(&mut self, element: &usize, prev_element: &usize, child: NodeOrText<usize>) {
        if self.tree.parent(self.known(*element)).is_some() {
            self.append_before_sibling(element, child)
        } else {
            self.append(prev_element, child)
        }
    }

    fn append_doctype_to_document(&mut self, name: StrTendril, public_id: StrTendril, system_id: StrTendril) {
        let id = self.tree.create(NodeData::Doctype {
            name: chars(&name),
            public_id: chars(&public_id),
            system_id: chars(&system_id),
        });
        self.track(id, None);
        self.tree.append(0, id).expect("structural violation");
    }

    fn get_template_contents(&mut self, target: &usize) -> usize {
        self.tree.template_contents(self.known(*target)).expect("not a template element")
    }

    fn same_node(&self, x: &usize, y: &usize) -> bool {
        x == y
    }

    fn set_quirks_mode(&mut self, mode: ParserQuirks) {
        self.tree.set_quirks_mode(match mode {
            ParserQuirks::Quirks => QuirksMode::Quirks,
            ParserQuirks::LimitedQuirks => QuirksMode::LimitedQuirks,
            ParserQuirks::NoQuirks => QuirksMode::NoQuirks,
        });
    }

    fn append_before_sibling(&mut self, sibling: &usize, child: NodeOrText<usize>) {
        let sibling = self.known(*sibling);
        match child {
            NodeOrText::AppendNode(n) => {
                let n = self.known(n);
                self.tree.insert_before(sibling, n).expect("structural violation");
            }
            NodeOrText::AppendText(text) => {
                self.tree.insert_text_before(sibling, &chars(&text)).expect("structural violation");
                self.names.resize(self.tree.len(), None);
            }
        }
    }

    fn add_attrs_if_missing(&mut self, target: &usize, attrs: Vec<ParserAttribute>) {
        let target = self.known(*target);
        self.tree.add_attrs_if_missing(target, attrs_of(attrs));
    }

    fn remove_from_parent(&mut self, target: &usize) {
        let target = self.known(*target);
        self.tree.detach(target);
    }

    fn reparent_children(&mut self, node: &usize, new_parent: &usize) {
        let (node, new_parent) = (self.known(*node), self.known(*new_parent));
        assert!(node != new_parent, "structural violation");
        self.tree.reparent_children(node, new_parent).expect("structural violation");
    }
}

fn parse_html(html: &str) -> Tree {
    parse_document(Builder::new(), Default::default()).one(html)
}

fn text_of(tree: &Tree, n: usize) -> String {
    match tree.data(n) {
        NodeData::Text { contents } => string(contents),
        _ => panic!("not a text node"),
    }
}

#[test]
fn text_nodes() {
    let html = r"
<!doctype html>
<title>Test case</title>
<p>Content contains <b>Important</b> data</p>";
    let mut document = parse_html(html);
    let paragraph = document.select(0, "p").unwrap();
    assert_eq!(paragraph.len(), 1);
    assert_eq!(
        string(&document.text_contents(paragraph[0])),
        "Content contains Important data"
    );
    let texts = document.text_nodes(&document.descendants(paragraph[0]));
    assert_eq!(texts.len(), 3);
    assert_eq!(text_of(&document, texts[0]), "Content contains ");
    assert_eq!(text_of(&document, texts[1]), "Important");
    assert_eq!(text_of(&document, texts[2]), " data");
    {
        let mut x = chars(&text_of(&document, texts[0]));
        x.truncate(0);
        x.extend("Content doesn't contain ".chars());
        assert!(document.set_text(texts[0], x));
    }
    assert_eq!(text_of(&document, texts[0]), "Content doesn't contain ");
}

#[test]
fn select() {
    let html = r"
<title>Test case</title>
<p class=foo>Foo
<p>Bar
<p class=foo>Foo
";

    let document = parse_html(html);
    let matching = document.select(0, "p.foo").unwrap();
    assert_eq!(matching.len(), 2);
    let child = document.first_child(matching[0]).unwrap();
    assert_eq!(text_of(&document, child), "Foo\n");
    assert_eq!(document.get_attr(matching[0], "class"), Some(chars("foo")));
    assert_eq!(document.get_attr(matching[0], "class").map(|v| string(&v)), Some("foo".to_string()));

    let selectors = Selectors::compile("p.foo").unwrap();
    let matching2 = selectors.filter(&document, &document.elements(&document.descendants(0)));
    assert_eq!(matching, matching2);
}

#[test]
fn select_first() {
    let html = r"
<title>Test case</title>
<p class=foo>Foo
<p>Bar
<p class=foo>Baz
";

    let document = parse_html(html);
    let matching = document.select_first(0, "p.foo").unwrap();
    let child = document.first_child(matching).unwrap();
    assert_eq!(text_of(&document, child), "Foo\n");
    assert_eq!(document.get_attr(matching, "class"), Some(chars("foo")));
    assert_eq!(document.get_attr(matching, "class").map(|v| string(&v)), Some("foo".to_string()));

    assert!(document.select_first(0, "p.bar").is_err());
}

#[test]
fn select_advanced_has() {
    let html = r#"
        <title>Test case</title>
        <p class=foo>Non-target elem</p>
        <p class=foo>Elem 1<span class=test-has>a</span></p>
        <p>Bar</p>
        <p class="foo bar">Elem 2<a></a></p>
    "#;

    let document = parse_html(html);

    assert!(check_only_match(&document, 0, "p.foo:has(.test-has)", "Elem 1"));
    assert!(check_only_match(&document, 0, "p.bar:has(a)", "Elem 2"));
    assert!(document.select_first(0, "p.foo:has(.bar)").is_err());
}

#[test]
fn select_advanced_is() {
    let html = r#"
        <title>Test case</title>
        <p class=foo>Non-target elem</p>
        <p class="foo baz">Non-target elem</p>
        <p class="foo bar">Elem 1</p>
        <p class="foo baz no">Elem 2</p>
    "#;

    let document = parse_html(html);

    assert!(check_only_match(&document, 0, "p.foo:is(.bar)", "Elem 1"));
    assert!(check_only_match(&document, 0, "p.foo:is(.no)", "Elem 2"));
    assert!(check_only_match(&document, 0, ".bar:is(p)", "Elem 1"));
}

#[test]
fn select_advanced_nth_child() {
    let html = r#"
        <title>Test case</title>
        <section class=outer>
            <p>Elem 1</p>
            <p>Elem 2</p>
            <p>Elem 3</p>
            <p>Elem 4</p>
            <p>Elem 5</p>
        </section>
        <p class=foo>Non-target elem</p>
        <p class="foo baz">Non-target elem</p>
        <p class="foo bar">Elem 1</p>
        <p class="foo baz no">Non-target elem</p>
    "#;

    let document = parse_html(html);

    assert!(check_only_match(&document, 0, ".outer > p:first-child", "Elem 1"));
    assert!(check_only_match(&document, 0, ".outer > p:nth-child(3)", "Elem 3"));
    assert!(check_only_match(&document, 0, ".outer > p:last-child", "Elem 5"));
}

#[test]
fn specificity() {
    let selectors = Selectors::compile(".example, :first-child, div").unwrap();
    let specificities = selectors
        .lists
        .last()
        .unwrap()
        .iter()
        .map(|s| s.specificity())
        .collect::<Vec<_>>();
    assert_eq!(specificities.len(), 3);
    assert!(specificities[0] == specificities[1]);
    assert!(specificities[0] > specificities[2]);
    assert!(specificities[1] > specificities[2]);
}

#[test]
fn parsed_document_is_no_quirks() {
    let document = parse_html("<!doctype html><title>Test case</title><p>Content");
    assert_eq!(document.quirks_mode(), QuirksMode::NoQuirks);
    let quirky = parse_html("<title>Test case</title><p>Content");
    assert_eq!(quirky.quirks_mode(), QuirksMode::Quirks);
}

#[test]
fn template_contents_are_not_children() {
    let document = parse_html("<!doctype html><template><p>Content</p></template>");
    let templates = document.select(0, "template").unwrap();
    assert_eq!(templates.len(), 1);
    assert!(document.first_child(templates[0]).is_none());
    let contents = document.template_contents(templates[0]).unwrap();
    let inner = document.select(contents, "p").unwrap();
    assert_eq!(inner.len(), 1);
    assert!(document.select(0, "p").unwrap().is_empty());
}

#[test]
fn end_to_end_example() {
    let document = parse_html("<p class=foo>Foo<p>Bar<p class=foo>Foo");
    let matching = document.select(0, "p.foo").unwrap();
    assert_eq!(matching.len(), 2);
    for m in matching {
        assert_eq!(document.get_attr(m, "class"), Some(chars("foo")));
        assert_eq!(text_of(&document, document.first_child(m).unwrap()), "Foo");
    }
}

#[test]
fn never_matching_selector_gives_empty() {
    let document = parse_html("<div><p class=a>x</p></div>");
    assert_eq!(document.select(0, "p.nothing").unwrap(), Vec::<usize>::new());
    assert_eq!(document.select(0, "span > p").unwrap(), Vec::<usize>::new());
}

#[test]
fn cached_and_uncached_agree() {
    let document = parse_html(
        "<ul><li>1<li class=x>2<li>3<li class=x>4<li>5<li>6<li class=x>7</ul><div><p>a<p>b<span>c</span></div>",
    );
    let all = document.descendants(0);
    for text in [
        "li:nth-child(2n+1)",
        "li:nth-last-child(2)",
        "li:first-child, li:last-child",
        "li:nth-of-type(3)",
        "li.x ~ li",
        "li.x + li",
        "ul li:only-of-type",
        ":is(li.x, p):has(span), li:nth-child(-n+3)",
        "span:only-child",
    ] {
        let s = Selectors::compile(text).unwrap();
        assert_eq!(s.filter(&document, &all), s.filter_uncached(&document, &all), "{}", text);
    }
    let s = Selectors::compile("li:nth-child(2n+1)").unwrap();
    let texts: Vec<String> = s
        .filter(&document, &all)
        .into_iter()
        .map(|n| string(&document.text_contents(n)))
        .collect();
    assert_eq!(texts, vec!["1", "3", "5", "7"]);
}

#[test]
fn nth_child_four_n_plus_one() {
    let document = parse_html("<div><i>1</i><i>2</i><i>3</i><i>4</i><i>5</i><i>6</i><i>7</i><i>8</i><i>9</i></div>");
    let m = document.select(0, "i:nth-child(4n+1)").unwrap();
    let texts: Vec<String> = m.into_iter().map(|n| string(&document.text_contents(n))).collect();
    assert_eq!(texts, vec!["1", "5", "9"]);
}

#[test]
fn has_matches_only_the_parent_with_the_descendant() {
    let document = parse_html(
        "<div id=outer><section class=s><b class=test-has>x</b></section><section class=s><b>y</b></section></div>",
    );
    let m = document.select(0, ".s:has(.test-has)").unwrap();
    assert_eq!(m.len(), 1);
    assert_eq!(string(&document.text_contents(m[0])), "x");
}

#[test]
fn detach_then_append_keeps_subtree() {
    let mut document = parse_html("<div id=a><ul><li>1</li><li>2</li></ul></div><div id=b><p>z</p></div>");
    let ul = document.select_first(0, "ul").unwrap();
    let b = document.select_first(0, "#b").unwrap();
    let before: Vec<usize> = document.inclusive_descendants(ul);
    document.detach(ul);
    assert!(document.parent(ul).is_none());
    document.append(b, ul).unwrap();
    assert_eq!(document.parent(ul), Some(b));
    assert_eq!(document.last_child(b), Some(ul));
    assert_eq!(document.inclusive_descendants(ul), before);
    let p = document.first_child(b).unwrap();
    assert_eq!(document.next_sibling(p), Some(ul));
    assert_eq!(document.previous_sibling(ul), Some(p));
    let a = document.select_first(0, "#a").unwrap();
    assert!(document.first_child(a).is_none());
}

#[test]
fn structural_errors() {
    let mut document = parse_html("<div><p>x</p></div>");
    let div = document.select_first(0, "div").unwrap();
    let p = document.select_first(0, "p").unwrap();
    assert_eq!(document.append(p, div), Err(kuchikiki::TreeError::Cycle));
    assert_eq!(document.append(p, p), Err(kuchikiki::TreeError::Cycle));
    assert_eq!(document.append(p, 0), Err(kuchikiki::TreeError::DocumentChild));
    let loose = document.create_element(chars("span"), vec![], false);
    assert_eq!(document.insert_before(loose, p), Err(kuchikiki::TreeError::NoParent));
    document.insert_before(p, loose).unwrap();
    assert_eq!(document.previous_sibling(p), Some(loose));
    document.insert_after(p, loose).unwrap();
    assert_eq!(document.next_sibling(p), Some(loose));
    document.prepend(div, loose).unwrap();
    assert_eq!(document.first_child(div), Some(loose));
}

#[test]
fn syntax_errors() {
    assert!(Selectors::compile("").is_err());
    assert!(Selectors::compile("   ").is_err());
    assert_eq!(Selectors::compile("p:frobnicate").err(), Some(kuchikiki::SyntaxError::UnknownPseudoClass));
    assert!(Selectors::compile("p:is(.a").is_err());
    assert!(Selectors::compile("p, ").is_err());
    assert!(Selectors::compile("p)").is_err());
    assert_eq!(Selectors::compile("p:nth-child(x)").err(), Some(kuchikiki::SyntaxError::BadNth));
    assert!(Selectors::compile("a > > b").is_err());
    let document = parse_html("<p>x</p>");
    assert!(document.select(0, "p[").is_err());
    assert_eq!(
        document.select_first(0, "p:nope"),
        Err(kuchikiki::SelectError::Syntax(kuchikiki::SyntaxError::UnknownPseudoClass))
    );
    assert_eq!(document.select_first(0, "span"), Err(kuchikiki::SelectError::NotFound));
}

#[test]
fn attribute_operators() {
    let document = parse_html(
        r#"<a id=one href="https://example.com/x.pdf" lang=en-US class="big  red" title="Hello World">t</a>"#,
    );
    for (sel, hit) in [
        ("[href]", true),
        ("[href^='https://']", true),
        ("[href$=\".pdf\"]", true),
        ("[href*=example]", true),
        ("[href*=nope]", false),
        ("[lang|=en]", true),
        ("[lang|=US]", false),
        ("[class~=red]", true),
        ("[class~=re]", false),
        ("[title='hello world' i]", true),
        ("[title='hello world']", false),
        ("[title='hello world' s]", false),
        ("#one", true),
        ("#two", false),
        ("A.big.red", true),
        ("*", true),
        ("[href^='']", false),
    ] {
        assert_eq!(!document.select(0, sel).unwrap().is_empty(), hit, "{}", sel);
    }
}

#[test]
fn positional_formulas() {
    let document = parse_html("<ol><li>1<li>2<li>3<li>4<li>5<li>6</ol>");
    let cases = [
        ("li:nth-child(odd)", vec!["1", "3", "5"]),
        ("li:nth-child(even)", vec!["2", "4", "6"]),
        ("li:nth-child(-n+2)", vec!["1", "2"]),
        ("li:nth-child(n+5)", vec!["5", "6"]),
        ("li:nth-child(3n)", vec!["3", "6"]),
        ("li:nth-last-child(1)", vec!["6"]),
        ("li:nth-last-child(-2n+3)", vec!["4", "6"]),
        ("li:nth-child(0n+2)", vec!["2"]),
        ("li + li + li + li + li", vec!["5", "6"]),
    ];
    for (sel, want) in cases {
        let got: Vec<String> = document
            .select(0, sel)
            .unwrap()
            .into_iter()
            .map(|n| string(&document.text_contents(n)))
            .collect();
        assert_eq!(got, want, "{}", sel);
    }
}

#[test]
fn construction_events() {
    let mut tree = Tree::new();
    let div = tree.create_element(chars("div"), vec![Attribute { name: chars("id"), value: chars("x") }], false);
    tree.append(0, div).unwrap();
    tree.append_text(div, &chars("ab"));
    tree.append_text(div, &chars("cd"));
    assert_eq!(tree.children(div).len(), 1);
    assert_eq!(string(&tree.text_contents(div)), "abcd");
    let span = tree.create_element(chars("span"), vec![], false);
    tree.append(div, span).unwrap();
    tree.append_text(div, &chars("ef"));
    assert_eq!(tree.children(div).len(), 3);
    tree.insert_text_before(span, &chars("!")).unwrap();
    assert_eq!(tree.children(div).len(), 3);
    assert_eq!(string(&tree.text_contents(div)), "abcd!ef");

    tree.add_attrs_if_missing(
        div,
        vec![
            Attribute { name: chars("id"), value: chars("y") },
            Attribute { name: chars("class"), value: chars("c") },
        ],
    );
    assert_eq!(tree.get_attr(div, "id"), Some(chars("x")));
    assert_eq!(tree.get_attr(div, "class"), Some(chars("c")));

    tree.set_quirks_mode(QuirksMode::LimitedQuirks);
    assert_eq!(tree.quirks_mode(), QuirksMode::LimitedQuirks);
    tree.set_quirks_mode(QuirksMode::NoQuirks);
    assert_eq!(tree.quirks_mode(), QuirksMode::LimitedQuirks);
    tree.set_quirks_mode(QuirksMode::Quirks);
    assert_eq!(tree.quirks_mode(), QuirksMode::Quirks);

    let other = tree.create_element(chars("section"), vec![], false);
    tree.append(0, other).unwrap();
    let moved = tree.children(div);
    tree.reparent_children(div, other).unwrap();
    assert!(tree.children(div).is_empty());
    assert_eq!(tree.children(other), moved);
    assert_eq!(tree.parent(span), Some(other));

    let t = tree.create_element(chars("template"), vec![], true);
    let contents = tree.template_contents(t).unwrap();
    assert!(matches!(tree.data(contents), NodeData::Document { .. }));
    assert_eq!(tree.ancestors(span), vec![other, 0]);
}

#[test]
fn sibling_and_ancestor_walks() {
    let document = parse_html("<div><i>1</i><b>2</b><u>3</u><s>4</s></div>");
    let b = document.select_first(0, "b").unwrap();
    let i = document.select_first(0, "i").unwrap();
    let u = document.select_first(0, "u").unwrap();
    let s = document.select_first(0, "s").unwrap();
    let div = document.select_first(0, "div").unwrap();
    assert_eq!(document.following_siblings(b), vec![u, s]);
    assert_eq!(document.preceding_siblings(u), vec![b, i]);
    assert!(document.preceding_siblings(i).is_empty());
    assert!(document.following_siblings(s).is_empty());
    let anc = document.inclusive_ancestors(b);
    assert_eq!(anc[0], b);
    assert_eq!(anc[1], div);
    assert_eq!(*anc.last().unwrap(), 0);
    assert_eq!(&anc[1..], &document.ancestors(b)[..]);
}

#[test]
fn reparent_refuses_a_cycle_and_changes_nothing() {
    let mut tree = Tree::new();
    let outer = tree.create_element(chars("div"), vec![], false);
    tree.append(0, outer).unwrap();
    let inner = tree.create_element(chars("p"), vec![], false);
    tree.append(outer, inner).unwrap();
    let deep = tree.create_element(chars("b"), vec![], false);
    tree.append(inner, deep).unwrap();
    assert_eq!(tree.reparent_children(outer, deep), Err(kuchikiki::TreeError::Cycle));
    assert_eq!(tree.children(outer), vec![inner]);
    assert_eq!(tree.parent(deep), Some(inner));
    assert_eq!(tree.reparent_children(outer, inner), Err(kuchikiki::TreeError::Cycle));
    let side = tree.create_element(chars("section"), vec![], false);
    tree.append(0, side).unwrap();
    tree.reparent_children(outer, side).unwrap();
    assert_eq!(tree.children(side), vec![inner]);
    assert_eq!(tree.parent(inner), Some(side));
    assert!(tree.children(outer).is_empty());
}

#[test]
fn get_attr_returns_the_first_of_repeated_names() {
    let mut tree = Tree::new();
    let e = tree.create_element(
        chars("a"),
        vec![
            Attribute { name: chars("href"), value: chars("first") },
            Attribute { name: chars("href"), value: chars("second") },
        ],
        false,
    );
    assert_eq!(tree.get_attr(e, "href"), Some(chars("first")));
    assert_eq!(tree.get_attr(e, "title"), None);
}

//! Server-side element builders: descriptors for tags, and the builder that
//! collects attributes, classes and children before a tree is serialized.
//!
//! This is the rendering-facing rim of the crate: it consumes the runtime's
//! primitives but adds no reactive behaviour of its own.  Attribute pairs
//! are kept in the inline-capacity vector the rendering layer uses.

use vstd::prelude::*;
use vstd::string::StringExecFns;

use smallvec::SmallVec;

use crate::runtime::ScopeHandle;

verus! {

/// The inline-capacity attribute store the rendering layer uses, backed by
/// a small-vector that spills to the heap past four pairs.  Verus cannot
/// take the vector's type directly, so the store is held opaquely and
/// spoken of through [`attr_items`].
#[verifier::external_body]
pub struct AttrStore {
    store: SmallVec<[(String, String); 4]>,
}

/// The attribute pairs an element store holds, in order.
pub uninterp spec fn attr_items(v: AttrStore) -> Seq<(String, String)>;

/// Relies on smallvec::SmallVec::new: the fresh store is empty.
#[verifier::external_body]
fn attrs_new() -> (r: AttrStore)
    ensures
        attr_items(r) == Seq::<(String, String)>::empty(),
{
    AttrStore { store: SmallVec::new() }
}

/// Relies on smallvec::SmallVec::push: appends at the end.
#[verifier::external_body]
fn attrs_push(v: &mut AttrStore, name: String, value: String)
    ensures
        attr_items(*final(v)) == attr_items(*old(v)).push((name, value)),
{
    v.store.push((name, value))
}

/// Relies on smallvec::SmallVec::len.
#[verifier::external_body]
fn attrs_len(v: &AttrStore) -> (r: usize)
    ensures
        r == attr_items(*v).len(),
{
    v.store.len()
}

/// Relies on smallvec's Index impl (Deref to a slice): hands out a copy of
/// the pair at `i`.
#[verifier::external_body]
fn attrs_get(v: &AttrStore, i: usize) -> (r: (String, String))
    requires
        (i as int) < attr_items(*v).len(),
    ensures
        r == attr_items(*v)[i as int],
{
    v.store[i].clone()
}

/// Relies on smallvec's IndexMut impl: replaces the pair at `i`.
#[verifier::external_body]
fn attrs_set(v: &mut AttrStore, i: usize, value: (String, String))
    requires
        (i as int) < attr_items(*old(v)).len(),
    ensures
        attr_items(*final(v)) == attr_items(*old(v)).update(i as int, value),
{
    v.store[i] = value;
}

/// Describes an element tag: its name, whether it is void (`<input>`,
/// `<br>`), and the stable hydration id generated for it.  The three spec
/// functions pin what each accessor returns, so erasing a descriptor keeps
/// its identity visible to callers.
pub trait ElementDescriptor {
    /// What [`ElementDescriptor::name`] returns.
    spec fn spec_name(&self) -> Seq<char>;

    /// What [`ElementDescriptor::is_void`] returns.
    spec fn spec_void(&self) -> bool;

    /// What [`ElementDescriptor::hydration_id`] returns.
    spec fn spec_hydration_id(&self) -> u64;

    /// The tag name, i.e., `div`, `p`, `custom-element`.
    fn name(&self) -> (r: String)
        ensures
            r@ == self.spec_name(),
    ;

    /// Whether the tag is void.
    fn is_void(&self) -> (r: bool)
        ensures
            r == self.spec_void(),
    ;

    /// The unique id generated for each new instance, consistent between
    /// server and client rendering.
    fn hydration_id(&self) -> (r: u64)
        ensures
            r == self.spec_hydration_id(),
    ;
}

/// A custom element, such as `<my-element>`.
pub struct Custom {
    pub tag: String,
    pub id: u64,
}

impl ElementDescriptor for Custom {
    open spec fn spec_name(&self) -> Seq<char> {
        self.tag@
    }

    open spec fn spec_void(&self) -> bool {
        false
    }

    open spec fn spec_hydration_id(&self) -> u64 {
        self.id
    }

    fn name(&self) -> (r: String) {
        self.tag.clone()
    }

    fn is_void(&self) -> (r: bool) {
        false
    }

    fn hydration_id(&self) -> (r: u64) {
        self.id
    }
}

/// Potentially any element.
pub struct AnyElement {
    pub tag: String,
    pub void: bool,
    pub id: u64,
}

impl ElementDescriptor for AnyElement {
    open spec fn spec_name(&self) -> Seq<char> {
        self.tag@
    }

    open spec fn spec_void(&self) -> bool {
        self.void
    }

    open spec fn spec_hydration_id(&self) -> u64 {
        self.id
    }

    fn name(&self) -> (r: String) {
        self.tag.clone()
    }

    fn is_void(&self) -> (r: bool) {
        self.void
    }

    fn hydration_id(&self) -> (r: u64) {
        self.id
    }
}

/// A text node.
pub struct Text {
    pub content: String,
}

/// Creates a text node.
pub fn text(content: String) -> (r: Text)
    ensures
        r.content == content,
{
    Text { content }
}

/// A slot a built element can later be loaded into; on the server nothing
/// ever loads, so binding one is a no-op.
pub struct NodeRef {
    pub slot: u64,
}

/// An attribute value.
pub enum Attribute {
    /// A plain string value.
    Str(String),
    /// A boolean attribute: present with an empty value, or absent.
    Flag(bool),
    /// An optional value: set when present, absent otherwise.
    OptStr(Option<String>),
}

/// An event named on an element; on the server listeners are dropped.
pub struct EventKind {
    pub event_name: String,
    pub bubbles: bool,
}

/// A rendered node: an element with its collected children, text, or raw
/// markup that is emitted as it stands.
pub enum ViewNode {
    Element(ElementData),
    Text(Text),
    Raw(String),
}

/// The server-side rendering of one element.
pub struct ElementData {
    pub tag: String,
    pub void: bool,
    pub attrs: Vec<(String, String)>,
    pub children: Vec<ViewNode>,
    pub prerendered: Option<String>,
}

/// The decimal digit character for a value below ten.
pub open spec fn digit_char(d: nat) -> char {
    if d == 0 {
        '0'
    } else if d == 1 {
        '1'
    } else if d == 2 {
        '2'
    } else if d == 3 {
        '3'
    } else if d == 4 {
        '4'
    } else if d == 5 {
        '5'
    } else if d == 6 {
        '6'
    } else if d == 7 {
        '7'
    } else if d == 8 {
        '8'
    } else {
        '9'
    }
}

/// The decimal rendering of a number, most significant digit first.
pub open spec fn dec_digits(n: nat) -> Seq<char>
    decreases n,
{
    if n < 10 {
        seq![digit_char(n)]
    } else {
        dec_digits(n / 10).push(digit_char(n % 10))
    }
}

/// Renders one digit below ten.
fn digit_str(d: u64) -> (r: &'static str)
    requires
        d < 10,
    ensures
        r@ =~= seq![digit_char(d as nat)],
{
    proof {
        reveal_strlit("0");
        reveal_strlit("1");
        reveal_strlit("2");
        reveal_strlit("3");
        reveal_strlit("4");
        reveal_strlit("5");
        reveal_strlit("6");
        reveal_strlit("7");
        reveal_strlit("8");
        reveal_strlit("9");
    }
    if d == 0 {
        "0"
    } else if d == 1 {
        "1"
    } else if d == 2 {
        "2"
    } else if d == 3 {
        "3"
    } else if d == 4 {
        "4"
    } else if d == 5 {
        "5"
    } else if d == 6 {
        "6"
    } else if d == 7 {
        "7"
    } else if d == 8 {
        "8"
    } else {
        "9"
    }
}

/// Renders a number in decimal.
pub fn fmt_u64(n: u64) -> (r: String)
    ensures
        r@ == dec_digits(n as nat),
    decreases n,
{
    if n < 10 {
        <String as StringExecFns>::from_str(digit_str(n))
    } else {
        let prefix = fmt_u64(n / 10);
        let r = prefix.concat(digit_str(n % 10));
        proof {
            assert(r@ =~= dec_digits((n / 10) as nat).push(digit_char((n % 10) as nat)));
        }
        r
    }
}

/// Index of the first pair in `items` whose key views equal `key`, or -1.
pub open spec fn find_key(items: Seq<(String, String)>, key: Seq<char>, k: int) -> int
    decreases items.len() - k,
{
    if k < 0 || k >= items.len() {
        -1
    } else if items[k].0@ == key {
        k
    } else {
        find_key(items, key, k + 1)
    }
}

/// An element under construction: the descriptor, and the attributes and
/// children collected so far.
pub struct HtmlElement<El: ElementDescriptor> {
    pub cx: ScopeHandle,
    pub element: El,
    pub attrs: AttrStore,
    pub children: Vec<ViewNode>,
    pub prerendered: Option<String>,
}

impl<El: ElementDescriptor> HtmlElement<El> {
    /// The attribute pairs collected so far, in insertion order.
    pub open spec fn attr_seq(self) -> Seq<(String, String)> {
        attr_items(self.attrs)
    }

    /// Starts building an element.
    pub fn new(cx: ScopeHandle, element: El) -> (r: HtmlElement<El>)
        ensures
            r.cx == cx,
            r.element == element,
            r.attr_seq() == Seq::<(String, String)>::empty(),
            r.children@ == Seq::<ViewNode>::empty(),
            r.prerendered is None,
    {
        HtmlElement {
            cx,
            element,
            attrs: attrs_new(),
            children: Vec::new(),
            prerendered: Option::None,
        }
    }

    /// Starts building an element around markup that was already rendered.
    pub fn from_html(cx: ScopeHandle, element: El, html: String) -> (r: HtmlElement<El>)
        ensures
            r.cx == cx,
            r.element == element,
            r.attr_seq() == Seq::<(String, String)>::empty(),
            r.children@ == Seq::<ViewNode>::empty(),
            r.prerendered == Option::Some(html),
    {
        HtmlElement {
            cx,
            element,
            attrs: attrs_new(),
            children: Vec::new(),
            prerendered: Option::Some(html),
        }
    }

    /// Binds the element to a [`NodeRef`]; nothing loads on the server, so
    /// the element passes through unchanged.
    pub fn node_ref(self, node_ref: &NodeRef) -> (r: HtmlElement<El>)
        ensures
            r == self,
    {
        let _ = node_ref;
        self
    }

    /// Adds an attribute: a string value as given, a set flag with an empty
    /// value, a present optional with its value; an unset flag or an absent
    /// optional adds nothing.
    pub fn attr(self, name: String, attr: Attribute) -> (r: HtmlElement<El>)
        ensures
            r.cx == self.cx,
            r.element == self.element,
            r.children == self.children,
            r.prerendered == self.prerendered,
            match attr {
                Attribute::Str(value) => r.attr_seq() == self.attr_seq().push((name, value)),
                Attribute::Flag(set) => if set {
                    r.attr_seq().len() == self.attr_seq().len() + 1 && r.attr_seq()
                        == self.attr_seq().push(
                        (name, r.attr_seq().last().1),
                    ) && r.attr_seq().last().1@ == Seq::<char>::empty()
                } else {
                    r.attr_seq() == self.attr_seq()
                },
                Attribute::OptStr(maybe) => match maybe {
                    Option::Some(value) => r.attr_seq() == self.attr_seq().push((name, value)),
                    Option::None => r.attr_seq() == self.attr_seq(),
                },
            },
    {
        let mut this = self;
        match attr {
            Attribute::Str(value) => {
                attrs_push(&mut this.attrs, name, value);
            },
            Attribute::Flag(set) => {
                if set {
                    attrs_push(&mut this.attrs, name, String::new());
                }
            },
            Attribute::OptStr(maybe) => {
                match maybe {
                    Option::Some(value) => {
                        attrs_push(&mut this.attrs, name, value);
                    },
                    Option::None => {},
                }
            },
        }
        this
    }

    /// Adds a class: when `enabled` holds, the name is appended (after a
    /// space) to the first existing `class` attribute, or a fresh `class`
    /// attribute is pushed when there is none.
    pub fn class(self, name: String, enabled: bool) -> (r: HtmlElement<El>)
        ensures
            r.cx == self.cx,
            r.element == self.element,
            r.children == self.children,
            r.prerendered == self.prerendered,
            !enabled ==> r == self,
            enabled ==> {
                let at = find_key(self.attr_seq(), "class"@, 0);
                if at == -1 {
                    r.attr_seq().len() == self.attr_seq().len() + 1 && r.attr_seq()
                        =~= self.attr_seq().push(r.attr_seq().last()) && r.attr_seq().last().0@
                        == "class"@ && r.attr_seq().last().1 == name
                } else {
                    &&& r.attr_seq().len() == self.attr_seq().len()
                    &&& (forall|j: int|
                        0 <= j < self.attr_seq().len() && j != at ==> r.attr_seq()[j]
                            == self.attr_seq()[j])
                    &&& r.attr_seq()[at].0 == self.attr_seq()[at].0
                    &&& r.attr_seq()[at].1@ == self.attr_seq()[at].1@ + " "@ + name@
                }
            },
    {
        if !enabled {
            return self;
        }
        let mut this = self;
        let cls: String = <String as StringExecFns>::from_str("class");
        let n = attrs_len(&this.attrs);
        let mut i: usize = 0;
        while i < n
            invariant
                enabled,
                this.cx == self.cx,
                this.element == self.element,
                this.children == self.children,
                this.prerendered == self.prerendered,
                attr_items(this.attrs) == self.attr_seq(),
                n == attr_items(this.attrs).len(),
                i <= n,
                find_key(attr_items(this.attrs), "class"@, 0) == find_key(
                    attr_items(this.attrs),
                    "class"@,
                    i as int,
                ),
                cls@ == "class"@,
            decreases n - i,
        {
            let (key, value) = attrs_get(&this.attrs, i);
            if key == cls {
                let merged = value.concat(" ").concat(name.as_str());
                proof {
                    assert(find_key(attr_items(this.attrs), "class"@, i as int) == i);
                }
                attrs_set(&mut this.attrs, i, (key, merged));
                return this;
            }
            proof {
                assert(find_key(attr_items(this.attrs), "class"@, i as int) == find_key(
                    attr_items(this.attrs),
                    "class"@,
                    i + 1,
                ));
            }
            i += 1;
        }
        proof {
            assert(find_key(attr_items(this.attrs), "class"@, n as int) == -1);
        }
        attrs_push(&mut this.attrs, cls, name);
        this
    }

    /// Converts this element into an [`HtmlElement<AnyElement>`], erasing
    /// the concrete tag type while keeping everything collected so far.
    pub fn into_any(self) -> (r: HtmlElement<AnyElement>)
        ensures
            r.cx == self.cx,
            r.element.tag@ == self.element.spec_name(),
            r.element.void == self.element.spec_void(),
            r.element.id == self.element.spec_hydration_id(),
            r.attr_seq() == self.attr_seq(),
            r.children == self.children,
            r.prerendered == self.prerendered,
    {
        let HtmlElement { cx, element, attrs, children, prerendered } = self;
        let tag = element.name();
        let void = element.is_void();
        let id = element.hydration_id();
        HtmlElement { cx, element: AnyElement { tag, void, id }, attrs, children, prerendered }
    }

    /// Adds an `id` attribute to the element.
    pub fn id(self, id: String) -> (r: HtmlElement<El>)
        ensures
            r.cx == self.cx,
            r.element == self.element,
            r.children == self.children,
            r.prerendered == self.prerendered,
            r.attr_seq().len() == self.attr_seq().len() + 1,
            r.attr_seq() =~= self.attr_seq().push(r.attr_seq().last()),
            r.attr_seq().last().0@ == "id"@,
            r.attr_seq().last().1 == id,
    {
        let mut this = self;
        let key: String = <String as StringExecFns>::from_str("id");
        attrs_push(&mut this.attrs, key, id);
        this
    }

    /// Sets a property on the element; properties live only on real
    /// rendered nodes, so the server-side builder passes through unchanged.
    pub fn prop(self, name: String, value: Attribute) -> (r: HtmlElement<El>)
        ensures
            r == self,
    {
        let _ = name;
        let _ = value;
        self
    }

    /// Replaces the element's children with the given markup, emitted as it
    /// stands.  The caller answers for the markup's safety.
    pub fn inner_html(self, html: String) -> (r: HtmlElement<El>)
        ensures
            r.cx == self.cx,
            r.element == self.element,
            r.attr_seq() == self.attr_seq(),
            r.prerendered == self.prerendered,
            r.children@ =~= seq![ViewNode::Raw(html)],
    {
        let mut this = self;
        let mut children: Vec<ViewNode> = Vec::new();
        children.push(ViewNode::Raw(html));
        this.children = children;
        this
    }

    /// Attaches an event listener; the server drops listeners, so the
    /// element passes through unchanged.
    pub fn on(self, event: EventKind, handler: u64) -> (r: HtmlElement<El>)
        ensures
            r == self,
    {
        let _ = event;
        let _ = handler;
        self
    }

    /// Adds a child to this element.
    pub fn child(self, child: ViewNode) -> (r: HtmlElement<El>)
        ensures
            r.cx == self.cx,
            r.element == self.element,
            r.attr_seq() == self.attr_seq(),
            r.prerendered == self.prerendered,
            r.children@ == self.children@.push(child),
    {
        let mut this = self;
        this.children.push(child);
        this
    }

    /// The attribute pairs a server render emits for this element under the
    /// given hydration id: everything collected so far, then one marker pair
    /// -- under the key `id` when no `id` attribute was set, under
    /// `leptos-hk` when one was, so a set `id` is never clobbered.
    pub fn hydration_attrs(&self, id: u64) -> (r: Vec<(String, String)>)
        ensures
            r@.len() == self.attr_seq().len() + 1,
            r@.subrange(0, self.attr_seq().len() as int) == self.attr_seq(),
            find_key(self.attr_seq(), "id"@, 0) == -1 ==> r@.last().0@ == "id"@,
            find_key(self.attr_seq(), "id"@, 0) != -1 ==> r@.last().0@ == "leptos-hk"@,
            r@.last().1@ == seq!['_'] + dec_digits(id as nat),
    {
        let mut out = self.attr_pairs();
        let key_id: String = <String as StringExecFns>::from_str("id");
        let n = out.len();
        let mut i: usize = 0;
        let mut found: bool = false;
        while i < n
            invariant
                n == out@.len(),
                out@ == self.attr_seq(),
                i <= n,
                key_id@ == "id"@,
                !found ==> find_key(self.attr_seq(), "id"@, 0) == find_key(
                    self.attr_seq(),
                    "id"@,
                    i as int,
                ),
                found ==> find_key(self.attr_seq(), "id"@, 0) != -1,
            decreases n - i,
        {
            if out[i].0 == key_id {
                proof {
                    assert(find_key(self.attr_seq(), "id"@, i as int) == i);
                }
                found = true;
                i = n;
            } else {
                proof {
                    assert(find_key(self.attr_seq(), "id"@, i as int) == find_key(
                        self.attr_seq(),
                        "id"@,
                        i + 1,
                    ));
                }
                i += 1;
            }
        }
        proof {
            if !found {
                assert(find_key(self.attr_seq(), "id"@, n as int) == -1);
            }
        }
        let marker = <String as StringExecFns>::from_str("_").concat(fmt_u64(id).as_str());
        proof {
            reveal_strlit("_");
            assert(marker@ =~= seq!['_'] + dec_digits(id as nat));
        }
        if found {
            out.push((<String as StringExecFns>::from_str("leptos-hk"), marker));
        } else {
            out.push((key_id, marker));
        }
        proof {
            assert(out@.subrange(0, self.attr_seq().len() as int) =~= self.attr_seq());
        }
        out
    }

    /// Finishes the build into a rendered node: the element's tag and
    /// voidness, the collected attributes with the hydration marker
    /// appended, the children, and any prerendered markup, all carried over
    /// unchanged.
    pub fn into_view(self) -> (r: ViewNode)
        ensures
            match r {
                ViewNode::Element(data) => {
                    &&& data.tag@ == self.element.spec_name()
                    &&& data.void == self.element.spec_void()
                    &&& data.attrs@.len() == self.attr_seq().len() + 1
                    &&& data.attrs@.subrange(0, self.attr_seq().len() as int) == self.attr_seq()
                    &&& (find_key(self.attr_seq(), "id"@, 0) == -1 ==> data.attrs@.last().0@
                        == "id"@)
                    &&& (find_key(self.attr_seq(), "id"@, 0) != -1 ==> data.attrs@.last().0@
                        == "leptos-hk"@)
                    &&& data.attrs@.last().1@ == seq!['_'] + dec_digits(
                        self.element.spec_hydration_id() as nat,
                    )
                    &&& data.children == self.children
                    &&& data.prerendered == self.prerendered
                },
                _ => false,
            },
    {
        let attrs = self.hydration_attrs(self.element.hydration_id());
        let HtmlElement { cx, element, attrs: _store, children, prerendered } = self;
        let _ = cx;
        let tag = element.name();
        let void = element.is_void();
        ViewNode::Element(ElementData { tag, void, attrs, children, prerendered })
    }

    /// The attribute pairs as a plain vector, for rendering and inspection.
    pub fn attr_pairs(&self) -> (r: Vec<(String, String)>)
        ensures
            r@ == self.attr_seq(),
    {
        let n = attrs_len(&self.attrs);
        let mut r: Vec<(String, String)> = Vec::new();
        let mut i: usize = 0;
        while i < n
            invariant
                n == attr_items(self.attrs).len(),
                i <= n,
                r@ == attr_items(self.attrs).subrange(0, i as int),
            decreases n - i,
        {
            let pair = attrs_get(&self.attrs, i);
            r.push(pair);
            proof {
                assert(r@ =~= attr_items(self.attrs).subrange(0, i + 1));
            }
            i += 1;
        }
        proof {
            assert(r@ =~= attr_items(self.attrs));
        }
        r
    }
}

/// Starts building a custom element, such as `<my-element>`, taking the tag
/// name and hydration id from the given descriptor.
pub fn custom<El: ElementDescriptor>(cx: ScopeHandle, el: El) -> (r: HtmlElement<Custom>)
    ensures
        r.cx == cx,
        r.element.tag@ == el.spec_name(),
        r.element.id == el.spec_hydration_id(),
        r.attr_seq() == Seq::<(String, String)>::empty(),
        r.children@ == Seq::<ViewNode>::empty(),
        r.prerendered is None,
{
    let tag = el.name();
    let id = el.hydration_id();
    HtmlElement::new(cx, Custom { tag, id })
}

} // verus!

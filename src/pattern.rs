//! Topic patterns: dot-separated segment matchers, with single-segment
//! wildcards (`{}` or `{name}`) and an optional trailing multi-segment
//! wildcard (`.>`, or `>` alone). A literal may hold escaped dots; it then
//! spans as many topic segments as it has pieces, and accepts them when they
//! join, with dots, into the literal.
use vstd::prelude::*;
use vstd::string::*;

use crate::error::PatternError;

verus! {

/// A segment matcher, as a mathematical value.
pub enum NodeView {
    /// Accepts any single non-empty segment; the name is cosmetic.
    Arg(Option<Seq<char>>),
    /// Accepts exactly this segment.
    Const(Seq<char>),
}

/// A pattern, as a mathematical value: its segment matchers in order, and
/// whether it ends in the multi-segment wildcard.
pub struct PatternView {
    pub nodes: Seq<NodeView>,
    pub trailing: bool,
}

/// The characters that must be escaped with a backslash inside a literal.
pub open spec fn is_meta(c: char) -> bool {
    c == '{' || c == '}' || c == '.' || c == '\\' || c == '>'
}

pub open spec fn is_ident_start(c: char) -> bool {
    ('a' as u32 <= c as u32 && c as u32 <= 'z' as u32) || ('A' as u32 <= c as u32 && c as u32
        <= 'Z' as u32) || c == '_'
}

pub open spec fn is_ident_continue(c: char) -> bool {
    is_ident_start(c) || ('0' as u32 <= c as u32 && c as u32 <= '9' as u32)
}

/// What the scanner has recognised so far within the current segment.
#[derive(Clone, Copy, PartialEq, Eq, Structural)]
pub enum ScanMode {
    /// At the start of a segment (or of the whole text).
    SegStart,
    /// After a lone leading dot, which only `>` may follow.
    LeadDot,
    /// Inside a literal.
    Lit,
    /// Inside a literal, right after a backslash.
    LitEsc,
    /// Right after `{`.
    ArgOpen,
    /// Inside a wildcard's name.
    ArgName,
    /// Right after the `}` that closes a wildcard.
    ArgDone,
    /// After the final `>`.
    Rest,
}

/// The scanner's state: finished segments, the mode of the current one, and
/// the characters collected for it (literal text or wildcard name).
pub struct Scan {
    pub mode: ScanMode,
    pub nodes: Seq<NodeView>,
    pub buf: Seq<char>,
}

pub open spec fn arg_of(buf: Seq<char>) -> NodeView {
    NodeView::Arg(if buf.len() == 0 { None } else { Some(buf) })
}

pub open spec fn scan_start() -> Scan {
    Scan { mode: ScanMode::SegStart, nodes: Seq::empty(), buf: Seq::empty() }
}

/// One step of the pattern grammar; `None` when `c` cannot follow.
pub open spec fn scan_step(st: Scan, c: char) -> Option<Scan> {
    let nodes = st.nodes;
    let buf = st.buf;
    match st.mode {
        ScanMode::SegStart => {
            if c == '{' {
                Some(Scan { mode: ScanMode::ArgOpen, nodes, buf: Seq::empty() })
            } else if c == '\\' {
                Some(Scan { mode: ScanMode::LitEsc, nodes, buf: Seq::empty() })
            } else if c == '>' {
                Some(Scan { mode: ScanMode::Rest, nodes, buf: Seq::empty() })
            } else if c == '.' {
                if nodes.len() == 0 {
                    Some(Scan { mode: ScanMode::LeadDot, nodes, buf: Seq::empty() })
                } else {
                    None
                }
            } else if c == '}' {
                None
            } else {
                Some(Scan { mode: ScanMode::Lit, nodes, buf: seq![c] })
            }
        },
        ScanMode::LeadDot => {
            if c == '>' {
                Some(Scan { mode: ScanMode::Rest, nodes, buf: Seq::empty() })
            } else {
                None
            }
        },
        ScanMode::Lit => {
            if c == '.' {
                Some(
                    Scan {
                        mode: ScanMode::SegStart,
                        nodes: nodes.push(NodeView::Const(buf)),
                        buf: Seq::empty(),
                    },
                )
            } else if c == '\\' {
                Some(Scan { mode: ScanMode::LitEsc, nodes, buf })
            } else if is_meta(c) {
                None
            } else {
                Some(Scan { mode: ScanMode::Lit, nodes, buf: buf.push(c) })
            }
        },
        ScanMode::LitEsc => {
            if is_meta(c) {
                Some(Scan { mode: ScanMode::Lit, nodes, buf: buf.push(c) })
            } else {
                None
            }
        },
        ScanMode::ArgOpen => {
            if c == '}' {
                Some(Scan { mode: ScanMode::ArgDone, nodes, buf: Seq::empty() })
            } else if is_ident_start(c) {
                Some(Scan { mode: ScanMode::ArgName, nodes, buf: seq![c] })
            } else {
                None
            }
        },
        ScanMode::ArgName => {
            if c == '}' {
                Some(Scan { mode: ScanMode::ArgDone, nodes, buf })
            } else if is_ident_continue(c) {
                Some(Scan { mode: ScanMode::ArgName, nodes, buf: buf.push(c) })
            } else {
                None
            }
        },
        ScanMode::ArgDone => {
            if c == '.' {
                Some(
                    Scan {
                        mode: ScanMode::SegStart,
                        nodes: nodes.push(arg_of(buf)),
                        buf: Seq::empty(),
                    },
                )
            } else {
                None
            }
        },
        ScanMode::Rest => None,
    }
}

/// Runs the grammar over `s`: the state after all of it, or the index of the
/// first character that cannot follow what precedes it.
pub open spec fn scan(s: Seq<char>) -> Result<Scan, nat>
    decreases s.len(),
{
    if s.len() == 0 {
        Ok(scan_start())
    } else {
        match scan(s.drop_last()) {
            Err(p) => Err(p),
            Ok(st) => match scan_step(st, s.last()) {
                Some(next) => Ok(next),
                None => Err((s.len() - 1) as nat),
            },
        }
    }
}

/// The pattern that a complete text denotes, if it ends where a pattern may end.
pub open spec fn scan_finish(st: Scan) -> Option<PatternView> {
    match st.mode {
        ScanMode::SegStart => {
            if st.nodes.len() == 0 {
                Some(PatternView { nodes: Seq::empty(), trailing: false })
            } else {
                None
            }
        },
        ScanMode::Lit => Some(
            PatternView { nodes: st.nodes.push(NodeView::Const(st.buf)), trailing: false },
        ),
        ScanMode::ArgDone => Some(
            PatternView { nodes: st.nodes.push(arg_of(st.buf)), trailing: false },
        ),
        ScanMode::Rest => Some(PatternView { nodes: st.nodes, trailing: true }),
        _ => None,
    }
}

/// What parsing `s` gives: the pattern, or the position of the error.
pub open spec fn parse_view(s: Seq<char>) -> Result<PatternView, nat> {
    match scan(s) {
        Err(p) => Err(p),
        Ok(st) => match scan_finish(st) {
            Some(p) => Ok(p),
            None => Err(s.len()),
        },
    }
}

/// The segments of a topic: the text between dots (so at least one, maybe empty).
pub open spec fn split_dots(t: Seq<char>) -> Seq<Seq<char>>
    decreases t.len(),
{
    if t.len() == 0 {
        seq![Seq::<char>::empty()]
    } else {
        let prev = split_dots(t.drop_last());
        if t.last() == '.' {
            prev.push(Seq::<char>::empty())
        } else {
            prev.update(prev.len() - 1, prev.last().push(t.last()))
        }
    }
}

pub open spec fn node_accepts(n: NodeView, seg: Seq<char>) -> bool {
    match n {
        NodeView::Arg(_) => seg.len() > 0,
        NodeView::Const(t) => t == seg,
    }
}

/// Whether a walk of matchers accepts a topic already split into segments:
/// one matcher per segment, with any number of extra segments when it ends
/// in `>`.
pub open spec fn segments_match(p: PatternView, segs: Seq<Seq<char>>) -> bool {
    &&& if p.trailing {
        segs.len() >= p.nodes.len()
    } else {
        segs.len() == p.nodes.len()
    }
    &&& forall|i: int| 0 <= i < p.nodes.len() ==> node_accepts(#[trigger] p.nodes[i], segs[i])
}

/// The single-segment matchers that a matcher stands for. A literal holding
/// `k` (escaped) dots stands for its `k + 1` dot-separated pieces, so it takes
/// `k + 1` topic segments and accepts them when, joined with `.`, they are
/// the literal.
pub open spec fn expand_node(n: NodeView) -> Seq<NodeView> {
    match n {
        NodeView::Const(t) => split_dots(t).map_values(|x: Seq<char>| NodeView::Const(x)),
        _ => seq![n],
    }
}

pub open spec fn expand_nodes(ns: Seq<NodeView>) -> Seq<NodeView>
    decreases ns.len(),
{
    if ns.len() == 0 {
        Seq::empty()
    } else {
        expand_nodes(ns.drop_last()) + expand_node(ns.last())
    }
}

/// The walk that a pattern makes over a topic's segments.
pub open spec fn matchers(p: PatternView) -> PatternView {
    PatternView { nodes: expand_nodes(p.nodes), trailing: p.trailing }
}

/// Whether a pattern accepts a topic.
pub open spec fn matches_view(p: PatternView, topic: Seq<char>) -> bool {
    segments_match(matchers(p), split_dots(topic))
}

pub open spec fn segs_view(v: Seq<Vec<char>>) -> Seq<Seq<char>> {
    v.map_values(|x: Vec<char>| x@)
}

#[derive(Debug, Clone)]
enum Node {
    Arg(Option<Vec<char>>),
    Const(Vec<char>),
}

impl View for Node {
    type V = NodeView;

    closed spec fn view(&self) -> NodeView {
        match self {
            Node::Arg(None) => NodeView::Arg(None),
            Node::Arg(Some(n)) => NodeView::Arg(Some(n@)),
            Node::Const(t) => NodeView::Const(t@),
        }
    }
}

spec fn nodes_view(v: Seq<Node>) -> Seq<NodeView> {
    v.map_values(|n: Node| n@)
}

/// A parsed topic pattern. Patterns are immutable once parsed.
#[derive(Debug, Clone)]
pub struct Pattern {
    nodes: Vec<Node>,
    is_trailing_any: bool,
}

impl View for Pattern {
    type V = PatternView;

    closed spec fn view(&self) -> PatternView {
        PatternView { nodes: nodes_view(self.nodes@), trailing: self.is_trailing_any }
    }
}

/// The characters of `s`, in order.
pub fn chars_of(s: &str) -> (r: Vec<char>)
    ensures
        r@ == s@,
{
    let n = s.unicode_len();
    let mut r: Vec<char> = Vec::new();
    let mut i: usize = 0;
    while i < n
        invariant
            n == s@.len(),
            i <= n,
            r@ == s@.take(i as int),
        decreases n - i,
    {
        r.push(s.get_char(i));
        proof {
            assert(s@.take(i + 1) =~= s@.take(i as int).push(s@[i as int]));
        }
        i += 1;
    }
    proof {
        assert(s@.take(n as int) =~= s@);
    }
    r
}

proof fn lemma_scan_err_stays(s: Seq<char>, k: int, j: int, p: nat)
    requires
        0 <= k <= j <= s.len(),
        scan(s.take(k)) == Err::<Scan, nat>(p),
    ensures
        scan(s.take(j)) == Err::<Scan, nat>(p),
    decreases j - k,
{
    if j > k {
        lemma_scan_err_stays(s, k, j - 1, p);
        assert(s.take(j).drop_last() =~= s.take(j - 1));
    }
}

fn is_meta_char(c: char) -> (r: bool)
    ensures
        r == is_meta(c),
{
    c == '{' || c == '}' || c == '.' || c == '\\' || c == '>'
}

fn is_ident_start_char(c: char) -> (r: bool)
    ensures
        r == is_ident_start(c),
{
    let u = c as u32;
    ('a' as u32 <= u && u <= 'z' as u32) || ('A' as u32 <= u && u <= 'Z' as u32) || c == '_'
}

fn is_ident_continue_char(c: char) -> (r: bool)
    ensures
        r == is_ident_continue(c),
{
    let u = c as u32;
    is_ident_start_char(c) || ('0' as u32 <= u && u <= '9' as u32)
}

fn arg_node(buf: Vec<char>) -> (n: Node)
    ensures
        n@ == arg_of(buf@),
{
    if buf.len() == 0 {
        Node::Arg(None)
    } else {
        Node::Arg(Some(buf))
    }
}

impl Pattern {
    /// Parses a pattern: segments separated by `.`, each a literal (where
    /// `{ } . \ >` are escaped with `\`) or a wildcard `{}` / `{name}`, with an
    /// optional final `.>` (or `>` alone) for any number of further segments.
    /// It succeeds exactly on the canonical texts of well-formed patterns (and
    /// on `.>`), and returns the pattern that the text spells.
    pub fn parse(text: &str) -> (r: Result<Pattern, PatternError>)
        ensures
            match r {
                Ok(p) => {
                    &&& parse_view(text@) == Ok::<PatternView, nat>(p@)
                    &&& pattern_wf(p@)
                    &&& pattern_source(p@) == text@ || (text@ == seq!['.', '>'] && p@
                        == catch_all())
                },
                Err(e) => {
                    &&& parse_view(text@) == Err::<PatternView, nat>(e.position as nat)
                    &&& text@ != seq!['.', '>']
                    &&& forall|q: PatternView| #[trigger] pattern_wf(q) ==> pattern_source(q) != text@
                },
            },
    {
        let r = Pattern::scan_text(text);
        proof {
            match r {
                Ok(ref p) => {
                    lemma_parse_inverts_source(text@, p@);
                },
                Err(_) => {
                    lemma_parse_inverts_source(text@, catch_all());
                    assert forall|q: PatternView| #[trigger] pattern_wf(q) implies pattern_source(q)
                        != text@ by {
                        lemma_parse_inverts_source(text@, q);
                    }
                },
            }
        }
        r
    }

    fn scan_text(text: &str) -> (r: Result<Pattern, PatternError>)
        ensures
            match r {
                Ok(p) => parse_view(text@) == Ok::<PatternView, nat>(p@),
                Err(e) => parse_view(text@) == Err::<PatternView, nat>(e.position as nat),
            },
    {
        let chars = chars_of(text);
        let n = chars.len();
        let mut mode = ScanMode::SegStart;
        let mut nodes: Vec<Node> = Vec::new();
        let mut buf: Vec<char> = Vec::new();
        let mut i: usize = 0;
        proof {
            assert(text@.take(0) =~= Seq::<char>::empty());
            assert(nodes_view(nodes@) =~= Seq::<NodeView>::empty());
        }
        while i < n
            invariant
                n == chars@.len(),
                chars@ == text@,
                i <= n,
                scan(text@.take(i as int)) == Ok::<Scan, nat>(
                    Scan { mode, nodes: nodes_view(nodes@), buf: buf@ },
                ),
            decreases n - i,
        {
            let c = chars[i];
            let ghost prev = Scan { mode, nodes: nodes_view(nodes@), buf: buf@ };
            proof {
                assert(text@.take(i + 1).drop_last() =~= text@.take(i as int));
                assert(text@.take(i + 1).last() == c);
            }
            let ok: bool = match mode {
                ScanMode::SegStart => {
                    if c == '{' {
                        mode = ScanMode::ArgOpen;
                        true
                    } else if c == '\\' {
                        mode = ScanMode::LitEsc;
                        true
                    } else if c == '>' {
                        mode = ScanMode::Rest;
                        true
                    } else if c == '.' {
                        if nodes.len() == 0 {
                            mode = ScanMode::LeadDot;
                            true
                        } else {
                            false
                        }
                    } else if c == '}' {
                        false
                    } else {
                        mode = ScanMode::Lit;
                        buf.push(c);
                        true
                    }
                },
                ScanMode::LeadDot => {
                    if c == '>' {
                        mode = ScanMode::Rest;
                        true
                    } else {
                        false
                    }
                },
                ScanMode::Lit => {
                    if c == '.' {
                        let t = buf;
                        buf = Vec::new();
                        nodes.push(Node::Const(t));
                        mode = ScanMode::SegStart;
                        true
                    } else if c == '\\' {
                        mode = ScanMode::LitEsc;
                        true
                    } else if is_meta_char(c) {
                        false
                    } else {
                        buf.push(c);
                        true
                    }
                },
                ScanMode::LitEsc => {
                    if is_meta_char(c) {
                        buf.push(c);
                        mode = ScanMode::Lit;
                        true
                    } else {
                        false
                    }
                },
                ScanMode::ArgOpen => {
                    if c == '}' {
                        mode = ScanMode::ArgDone;
                        true
                    } else if is_ident_start_char(c) {
                        buf.push(c);
                        mode = ScanMode::ArgName;
                        true
                    } else {
                        false
                    }
                },
                ScanMode::ArgName => {
                    if c == '}' {
                        mode = ScanMode::ArgDone;
                        true
                    } else if is_ident_continue_char(c) {
                        buf.push(c);
                        true
                    } else {
                        false
                    }
                },
                ScanMode::ArgDone => {
                    if c == '.' {
                        let t = buf;
                        buf = Vec::new();
                        nodes.push(arg_node(t));
                        mode = ScanMode::SegStart;
                        true
                    } else {
                        false
                    }
                },
                ScanMode::Rest => false,
            };
            if !ok {
                proof {
                    assert(scan_step(prev, c).is_none());
                    lemma_scan_err_stays(text@, i + 1, n as int, i as nat);
                    assert(text@.take(n as int) =~= text@);
                }
                return Err(PatternError { position: i });
            }
            proof {
                assert(nodes_view(nodes@) =~= scan_step(prev, c)->0.nodes);
                assert(buf@ =~= scan_step(prev, c)->0.buf);
            }
            i += 1;
        }
        proof {
            assert(text@.take(n as int) =~= text@);
        }
        let trailing = match mode {
            ScanMode::SegStart => {
                if nodes.len() == 0 {
                    Some(false)
                } else {
                    None
                }
            },
            ScanMode::Lit => {
                nodes.push(Node::Const(buf));
                Some(false)
            },
            ScanMode::ArgDone => {
                nodes.push(arg_node(buf));
                Some(false)
            },
            ScanMode::Rest => Some(true),
            _ => None,
        };
        match trailing {
            Some(t) => {
                let p = Pattern { nodes, is_trailing_any: t };
                proof {
                    assert(p@.nodes =~= parse_view(text@)->Ok_0.nodes);
                }
                Ok(p)
            },
            None => Err(PatternError { position: n }),
        }
    }
}


/// A topic has at least one segment.
pub proof fn lemma_split_nonempty(t: Seq<char>)
    ensures
        split_dots(t).len() >= 1,
    decreases t.len(),
{
    if t.len() > 0 {
        lemma_split_nonempty(t.drop_last());
    }
}

/// Splits a text at every dot.
fn split_chars(chars: &Vec<char>) -> (segs: Vec<Vec<char>>)
    ensures
        segs_view(segs@) == split_dots(chars@),
{
    let n = chars.len();
    let mut segs: Vec<Vec<char>> = Vec::new();
    let mut cur: Vec<char> = Vec::new();
    let mut i: usize = 0;
    proof {
        assert(chars@.take(0) =~= Seq::<char>::empty());
        assert(segs_view(segs@).push(cur@) =~= split_dots(chars@.take(0)));
    }
    while i < n
        invariant
            n == chars@.len(),
            i <= n,
            split_dots(chars@.take(i as int)) == segs_view(segs@).push(cur@),
        decreases n - i,
    {
        let c = chars[i];
        proof {
            assert(chars@.take(i + 1).drop_last() =~= chars@.take(i as int));
            assert(chars@.take(i + 1).last() == c);
        }
        if c == '.' {
            let done = cur;
            cur = Vec::new();
            segs.push(done);
            proof {
                assert(segs_view(segs@).push(cur@) =~= split_dots(chars@.take(i as int)).push(
                    Seq::<char>::empty(),
                ));
            }
        } else {
            cur.push(c);
            proof {
                let prev = split_dots(chars@.take(i as int));
                assert(segs_view(segs@).push(cur@) =~= prev.update(
                    prev.len() - 1,
                    prev.last().push(c),
                ));
            }
        }
        i += 1;
    }
    proof {
        assert(chars@.take(n as int) =~= chars@);
    }
    segs.push(cur);
    segs
}

/// Splits a topic at every dot.
pub fn split_topic(topic: &str) -> (segs: Vec<Vec<char>>)
    ensures
        segs_view(segs@) == split_dots(topic@),
{
    let chars = chars_of(topic);
    split_chars(&chars)
}

fn same_chars(a: &Vec<char>, b: &Vec<char>) -> (r: bool)
    ensures
        r == (a@ == b@),
{
    if a.len() != b.len() {
        return false;
    }
    let mut i: usize = 0;
    while i < a.len()
        invariant
            a@.len() == b@.len(),
            i <= a@.len(),
            forall|j: int| 0 <= j < i ==> a@[j] == b@[j],
        decreases a@.len() - i,
    {
        if a[i] != b[i] {
            return false;
        }
        i += 1;
    }
    proof {
        assert(a@ =~= b@);
    }
    true
}

/// The matchers of a prefix of `ns` are a prefix of the matchers of `ns`.
proof fn lemma_expand_prefix(ns: Seq<NodeView>, i: int)
    requires
        0 <= i <= ns.len(),
    ensures
        expand_nodes(ns.take(i)).len() <= expand_nodes(ns).len(),
        forall|q: int|
            0 <= q < expand_nodes(ns.take(i)).len() ==> #[trigger] expand_nodes(ns.take(i))[q]
                == expand_nodes(ns)[q],
    decreases ns.len() - i,
{
    if i == ns.len() {
        assert(ns.take(i) =~= ns);
    } else {
        lemma_expand_prefix(ns, i + 1);
        assert(ns.take(i + 1).drop_last() =~= ns.take(i));
        assert(ns.take(i + 1).last() == ns[i]);
        let a = expand_nodes(ns.take(i));
        let b = expand_nodes(ns.take(i + 1));
        assert(b == a + expand_node(ns[i]));
        assert forall|q: int| 0 <= q < a.len() implies #[trigger] a[q] == expand_nodes(ns)[q] by {
            assert(b[q] == a[q]);
        }
    }
}

impl Pattern {
    /// Whether the pattern accepts a topic that is already split into
    /// segments.
    pub fn matches_segments(&self, segs: &Vec<Vec<char>>) -> (r: bool)
        ensures
            r == segments_match(matchers(self@), segs_view(segs@)),
    {
        let ghost ns = self@.nodes;
        let ghost segv = segs_view(segs@);
        let n = self.nodes.len();
        let m = segs.len();
        let mut i: usize = 0;
        let mut j: usize = 0;
        proof {
            assert(ns.take(0) =~= Seq::<NodeView>::empty());
        }
        while i < n
            invariant
                n == ns.len(),
                ns == self@.nodes,
                segv == segs_view(segs@),
                m == segs@.len(),
                i <= n,
                j <= m,
                j == expand_nodes(ns.take(i as int)).len(),
                forall|q: int|
                    0 <= q < j ==> node_accepts(
                        #[trigger] expand_nodes(ns.take(i as int))[q],
                        segv[q],
                    ),
            decreases n - i,
        {
            let ghost before = expand_nodes(ns.take(i as int));
            let ghost after = expand_nodes(ns.take(i + 1));
            proof {
                assert(ns.take(i + 1).drop_last() =~= ns.take(i as int));
                assert(ns.take(i + 1).last() == ns[i as int]);
                assert(after == before + expand_node(ns[i as int]));
                lemma_expand_prefix(ns, i + 1);
                assert(ns[i as int] == self.nodes@[i as int]@);
            }
            match &self.nodes[i] {
                Node::Arg(_) => {
                    proof {
                        assert(expand_node(ns[i as int]) =~= seq![ns[i as int]]);
                    }
                    if j >= m {
                        return false;
                    }
                    if segs[j].len() == 0 {
                        proof {
                            assert(after[j as int] == ns[i as int]);
                            assert(expand_nodes(ns)[j as int] == after[j as int]);
                            assert(!node_accepts(expand_nodes(ns)[j as int], segv[j as int]));
                        }
                        return false;
                    }
                    proof {
                        assert forall|q: int| 0 <= q < j + 1 implies node_accepts(
                            #[trigger] after[q],
                            segv[q],
                        ) by {
                            if q < j {
                                assert(after[q] == before[q]);
                            }
                        }
                    }
                    j += 1;
                },
                Node::Const(t) => {
                    let pieces = split_chars(t);
                    let k = pieces.len();
                    let ghost ex = expand_node(ns[i as int]);
                    proof {
                        assert(ex.len() == k);
                        assert forall|q: int| 0 <= q < k implies #[trigger] ex[q] == NodeView::Const(
                            segs_view(pieces@)[q],
                        ) by {}
                    }
                    if k > m - j {
                        return false;
                    }
                    let mut q: usize = 0;
                    while q < k
                        invariant
                            k == pieces@.len(),
                            j + k <= m,
                            m == segs@.len(),
                            segv == segs_view(segs@),
                            q <= k,
                            ex.len() == k,
                            forall|x: int| 0 <= x < k ==> #[trigger] ex[x] == NodeView::Const(
                                segs_view(pieces@)[x],
                            ),
                            forall|x: int| 0 <= x < q ==> node_accepts(#[trigger] ex[x], segv[j + x]),
                            after == before + ex,
                            before.len() == j,
                            ns == self@.nodes,
                            after.len() <= expand_nodes(ns).len(),
                            forall|x: int|
                                0 <= x < after.len() ==> #[trigger] after[x] == expand_nodes(ns)[x],
                        decreases k - q,
                    {
                        if !same_chars(&pieces[q], &segs[j + q]) {
                            proof {
                                let x = (j + q) as int;
                                assert(after[x] == ex[q as int]);
                                assert(expand_nodes(ns)[x] == after[x]);
                                assert(!node_accepts(expand_nodes(ns)[x], segv[x]));
                                assert(0 <= x < matchers(self@).nodes.len());
                                assert(!node_accepts(matchers(self@).nodes[x], segv[x]));
                            }
                            return false;
                        }
                        q += 1;
                    }
                    proof {
                        assert forall|x: int| 0 <= x < j + k implies node_accepts(
                            #[trigger] after[x],
                            segv[x],
                        ) by {
                            if x < j {
                                assert(after[x] == before[x]);
                            } else {
                                assert(after[x] == ex[x - j]);
                            }
                        }
                    }
                    j += k;
                },
            }
            i += 1;
        }
        proof {
            assert(ns.take(n as int) =~= ns);
        }
        if self.is_trailing_any {
            true
        } else {
            j == m
        }
    }

    /// Whether the pattern accepts `topic`. The answer depends on the pattern
    /// and the topic alone.
    pub fn matches(&self, topic: &str) -> (r: bool)
        ensures
            r == matches_view(self@, topic@),
    {
        let segs = split_topic(topic);
        self.matches_segments(&segs)
    }
}


pub open spec fn node_text(n: NodeView) -> Seq<char> {
    match n {
        NodeView::Arg(None) => seq!['{', '}'],
        NodeView::Arg(Some(name)) => seq!['{'] + name + seq!['}'],
        NodeView::Const(t) => t,
    }
}

/// The texts of the matchers, joined with dots.
pub open spec fn join_texts(ns: Seq<NodeView>) -> Seq<char>
    decreases ns.len(),
{
    if ns.len() == 0 {
        Seq::empty()
    } else if ns.len() == 1 {
        node_text(ns[0])
    } else {
        join_texts(ns.drop_last()) + seq!['.'] + node_text(ns.last())
    }
}

/// The display form: wildcards as `{}` / `{name}`, literal text as it is (not
/// escaped), and `>` as a last segment for the trailing wildcard.
pub open spec fn display_view(p: PatternView) -> Seq<char> {
    if p.trailing {
        if p.nodes.len() == 0 {
            seq!['>']
        } else {
            join_texts(p.nodes) + seq!['.', '>']
        }
    } else {
        join_texts(p.nodes)
    }
}

/// Relies on `String`'s `FromIterator<&char>`: the string holds the characters in order.
#[verifier::external_body]
fn string_from_chars(v: &Vec<char>) -> (r: String)
    ensures
        r@ == v@,
{
    v.iter().collect::<String>()
}

fn push_all(out: &mut Vec<char>, t: &Vec<char>)
    ensures
        final(out)@ == old(out)@ + t@,
{
    let mut i: usize = 0;
    while i < t.len()
        invariant
            i <= t@.len(),
            out@ == old(out)@ + t@.take(i as int),
        decreases t@.len() - i,
    {
        out.push(t[i]);
        proof {
            assert(t@.take(i + 1) =~= t@.take(i as int).push(t@[i as int]));
        }
        i += 1;
    }
    proof {
        assert(t@.take(t@.len() as int) =~= t@);
    }
}

fn push_node_text(out: &mut Vec<char>, n: &Node)
    ensures
        final(out)@ == old(out)@ + node_text(n@),
{
    match n {
        Node::Arg(None) => {
            out.push('{');
            out.push('}');
            proof {
                assert(final(out)@ =~= old(out)@ + node_text(n@));
            }
        },
        Node::Arg(Some(name)) => {
            out.push('{');
            push_all(out, name);
            out.push('}');
            proof {
                assert(final(out)@ =~= old(out)@ + node_text(n@));
            }
        },
        Node::Const(t) => {
            push_all(out, t);
        },
    }
}

impl Pattern {
    /// Renders the pattern for reading; not used for equality or matching.
    pub fn display(&self) -> (r: String)
        ensures
            r@ == display_view(self@),
    {
        let mut out: Vec<char> = Vec::new();
        let n = self.nodes.len();
        let mut i: usize = 0;
        proof {
            assert(self@.nodes.take(0) =~= Seq::<NodeView>::empty());
        }
        while i < n
            invariant
                n == self@.nodes.len(),
                i <= n,
                out@ == join_texts(self@.nodes.take(i as int)),
            decreases n - i,
        {
            if i > 0 {
                out.push('.');
            }
            push_node_text(&mut out, &self.nodes[i]);
            proof {
                let ns = self@.nodes.take(i + 1);
                assert(ns.drop_last() =~= self@.nodes.take(i as int));
                if i == 0 {
                    assert(out@ =~= join_texts(ns));
                } else {
                    assert(out@ =~= join_texts(ns));
                }
            }
            i += 1;
        }
        proof {
            assert(self@.nodes.take(n as int) =~= self@.nodes);
        }
        if self.is_trailing_any {
            if n > 0 {
                out.push('.');
            }
            out.push('>');
            proof {
                assert(out@ =~= display_view(self@));
            }
        }
        string_from_chars(&out)
    }
}


/// How a literal character is written in a pattern: metacharacters escaped.
pub open spec fn escape_char(c: char) -> Seq<char> {
    if is_meta(c) {
        seq!['\\', c]
    } else {
        seq![c]
    }
}

/// How a literal segment's text is written in a pattern.
pub open spec fn escape_text(t: Seq<char>) -> Seq<char>
    decreases t.len(),
{
    if t.len() == 0 {
        Seq::empty()
    } else {
        escape_text(t.drop_last()) + escape_char(t.last())
    }
}

pub open spec fn is_ident(n: Seq<char>) -> bool {
    &&& n.len() > 0
    &&& is_ident_start(n[0])
    &&& forall|i: int| 1 <= i < n.len() ==> is_ident_continue(#[trigger] n[i])
}

/// A matcher that some pattern text can denote: a non-empty literal, or a
/// wildcard whose name, if any, is an identifier.
pub open spec fn node_wf(n: NodeView) -> bool {
    match n {
        NodeView::Const(t) => t.len() > 0,
        NodeView::Arg(Some(name)) => is_ident(name),
        NodeView::Arg(None) => true,
    }
}

pub open spec fn pattern_wf(p: PatternView) -> bool {
    forall|i: int| 0 <= i < p.nodes.len() ==> node_wf(#[trigger] p.nodes[i])
}

/// The source text of a matcher.
pub open spec fn node_source(n: NodeView) -> Seq<char> {
    match n {
        NodeView::Const(t) => escape_text(t),
        _ => node_text(n),
    }
}

/// The source texts of the matchers, joined with dots.
pub open spec fn nodes_source(ns: Seq<NodeView>) -> Seq<char>
    decreases ns.len(),
{
    if ns.len() == 0 {
        Seq::empty()
    } else if ns.len() == 1 {
        node_source(ns[0])
    } else {
        nodes_source(ns.drop_last()) + seq!['.'] + node_source(ns.last())
    }
}

/// The canonical source text of a pattern.
pub open spec fn pattern_source(p: PatternView) -> Seq<char> {
    if p.trailing {
        if p.nodes.len() == 0 {
            seq!['>']
        } else {
            nodes_source(p.nodes) + seq!['.', '>']
        }
    } else {
        nodes_source(p.nodes)
    }
}

/// The grammar run from state `st` over `s`, ignoring error positions.
pub open spec fn run_from(st: Scan, s: Seq<char>) -> Option<Scan>
    decreases s.len(),
{
    if s.len() == 0 {
        Some(st)
    } else {
        match run_from(st, s.drop_last()) {
            Some(x) => scan_step(x, s.last()),
            None => None,
        }
    }
}

proof fn lemma_scan_is_run(s: Seq<char>)
    ensures
        match scan(s) {
            Ok(st) => run_from(scan_start(), s) == Some(st),
            Err(_) => run_from(scan_start(), s) is None,
        },
    decreases s.len(),
{
    if s.len() > 0 {
        lemma_scan_is_run(s.drop_last());
    }
}

proof fn lemma_run_concat(st: Scan, a: Seq<char>, b: Seq<char>)
    ensures
        run_from(st, a + b) == match run_from(st, a) {
            Some(x) => run_from(x, b),
            None => None,
        },
    decreases b.len(),
{
    if b.len() == 0 {
        assert(a + b =~= a);
    } else {
        assert((a + b).drop_last() =~= a + b.drop_last());
        assert((a + b).last() == b.last());
        lemma_run_concat(st, a, b.drop_last());
    }
}

proof fn lemma_run_one(st: Scan, c: char)
    ensures
        run_from(st, seq![c]) == scan_step(st, c),
{
    assert(seq![c].drop_last() =~= Seq::<char>::empty());
    assert(seq![c].last() == c);
    assert(run_from(st, Seq::<char>::empty()) == Some(st));
}

proof fn lemma_run_two(st: Scan, c: char, d: char)
    ensures
        run_from(st, seq![c, d]) == match scan_step(st, c) {
            Some(x) => scan_step(x, d),
            None => None,
        },
{
    assert(seq![c, d] =~= seq![c] + seq![d]);
    lemma_run_concat(st, seq![c], seq![d]);
    lemma_run_one(st, c);
    if let Some(x) = scan_step(st, c) {
        lemma_run_one(x, d);
    }
}

proof fn lemma_escape_first(t: Seq<char>)
    requires
        t.len() > 0,
    ensures
        escape_text(t) == escape_char(t[0]) + escape_text(t.drop_first()),
    decreases t.len(),
{
    if t.len() == 1 {
        assert(t.drop_last() =~= Seq::<char>::empty());
        assert(t.drop_first() =~= Seq::<char>::empty());
        assert(escape_text(t) =~= escape_char(t[0]) + escape_text(t.drop_first()));
    } else {
        lemma_escape_first(t.drop_last());
        assert(t.drop_last().drop_first() =~= t.drop_first().drop_last());
        assert(t.drop_first().last() == t.last());
        assert(escape_text(t) =~= escape_char(t[0]) + escape_text(t.drop_first()));
    }
}

proof fn lemma_escape_char_run(st: Scan, c: char)
    requires
        st.mode == ScanMode::Lit,
    ensures
        run_from(st, escape_char(c)) == Some(
            Scan { mode: ScanMode::Lit, nodes: st.nodes, buf: st.buf.push(c) },
        ),
{
    if is_meta(c) {
        lemma_run_two(st, '\\', c);
    } else {
        lemma_run_one(st, c);
    }
}

proof fn lemma_escape_run(st: Scan, t: Seq<char>)
    requires
        st.mode == ScanMode::Lit,
    ensures
        run_from(st, escape_text(t)) == Some(
            Scan { mode: ScanMode::Lit, nodes: st.nodes, buf: st.buf + t },
        ),
    decreases t.len(),
{
    if t.len() == 0 {
        assert(st.buf + t =~= st.buf);
    } else {
        lemma_escape_run(st, t.drop_last());
        let mid = Scan { mode: ScanMode::Lit, nodes: st.nodes, buf: st.buf + t.drop_last() };
        lemma_run_concat(st, escape_text(t.drop_last()), escape_char(t.last()));
        lemma_escape_char_run(mid, t.last());
        assert((st.buf + t.drop_last()).push(t.last()) =~= st.buf + t);
    }
}

proof fn lemma_name_run(st: Scan, y: Seq<char>)
    requires
        st.mode == ScanMode::ArgName,
        forall|i: int| 0 <= i < y.len() ==> is_ident_continue(#[trigger] y[i]),
    ensures
        run_from(st, y) == Some(Scan { mode: ScanMode::ArgName, nodes: st.nodes, buf: st.buf + y }),
    decreases y.len(),
{
    if y.len() == 0 {
        assert(st.buf + y =~= st.buf);
    } else {
        assert forall|i: int| 0 <= i < y.drop_last().len() implies is_ident_continue(
            #[trigger] y.drop_last()[i],
        ) by {
            assert(y.drop_last()[i] == y[i]);
        }
        lemma_name_run(st, y.drop_last());
        assert(is_ident_continue(y[y.len() - 1]));
        assert((st.buf + y.drop_last()).push(y.last()) =~= st.buf + y);
    }
}

/// The state right after a matcher's text, before what follows it.
pub open spec fn after_node(nodes: Seq<NodeView>, n: NodeView) -> Scan {
    match n {
        NodeView::Const(t) => Scan { mode: ScanMode::Lit, nodes, buf: t },
        NodeView::Arg(None) => Scan { mode: ScanMode::ArgDone, nodes, buf: Seq::empty() },
        NodeView::Arg(Some(x)) => Scan { mode: ScanMode::ArgDone, nodes, buf: x },
    }
}

proof fn lemma_node_run(nodes: Seq<NodeView>, n: NodeView)
    requires
        node_wf(n),
    ensures
        run_from(Scan { mode: ScanMode::SegStart, nodes, buf: Seq::empty() }, node_source(n))
            == Some(after_node(nodes, n)),
{
    let st = Scan { mode: ScanMode::SegStart, nodes, buf: Seq::empty() };
    match n {
        NodeView::Const(t) => {
            lemma_escape_first(t);
            let c = t[0];
            let lit = Scan { mode: ScanMode::Lit, nodes, buf: seq![c] };
            lemma_run_concat(st, escape_char(c), escape_text(t.drop_first()));
            if is_meta(c) {
                lemma_run_two(st, '\\', c);
                assert(Seq::<char>::empty().push(c) =~= seq![c]);
            } else {
                lemma_run_one(st, c);
            }
            assert(run_from(st, escape_char(c)) == Some(lit));
            lemma_escape_run(lit, t.drop_first());
            assert(seq![c] + t.drop_first() =~= t);
        },
        NodeView::Arg(None) => {
            lemma_run_two(st, '{', '}');
        },
        NodeView::Arg(Some(x)) => {
            let open = seq!['{', x[0]];
            let rest = x.drop_first();
            assert(node_source(n) =~= open + rest + seq!['}']);
            lemma_run_two(st, '{', x[0]);
            let named = Scan { mode: ScanMode::ArgName, nodes, buf: seq![x[0]] };
            assert(run_from(st, open) == Some(named));
            assert forall|i: int| 0 <= i < rest.len() implies is_ident_continue(#[trigger] rest[i]) by {
                assert(rest[i] == x[i + 1]);
            }
            lemma_name_run(named, rest);
            lemma_run_concat(st, open, rest);
            assert(seq![x[0]] + rest =~= x);
            lemma_run_concat(st, open + rest, seq!['}']);
            lemma_run_one(Scan { mode: ScanMode::ArgName, nodes, buf: x }, '}');
        },
    }
}

proof fn lemma_nodes_run(ns: Seq<NodeView>)
    requires
        ns.len() > 0,
        forall|i: int| 0 <= i < ns.len() ==> node_wf(#[trigger] ns[i]),
    ensures
        run_from(scan_start(), nodes_source(ns)) == Some(after_node(ns.drop_last(), ns.last())),
    decreases ns.len(),
{
    if ns.len() == 1 {
        assert(ns.drop_last() =~= Seq::<NodeView>::empty());
        assert(node_wf(ns[0]));
        lemma_node_run(Seq::empty(), ns[0]);
    } else {
        let prev = ns.drop_last();
        assert forall|i: int| 0 <= i < prev.len() implies node_wf(#[trigger] prev[i]) by {
            assert(prev[i] == ns[i]);
        }
        lemma_nodes_run(prev);
        let a = after_node(prev.drop_last(), prev.last());
        let seg = Scan { mode: ScanMode::SegStart, nodes: prev, buf: Seq::empty() };
        assert(prev.drop_last().push(prev.last()) =~= prev);
        lemma_run_concat(scan_start(), nodes_source(prev), seq!['.']);
        lemma_run_one(a, '.');
        assert(run_from(a, seq!['.']) == Some(seg));
        assert(node_wf(ns[ns.len() - 1]));
        lemma_node_run(prev, ns.last());
        lemma_run_concat(scan_start(), nodes_source(prev) + seq!['.'], node_source(ns.last()));
    }
}

/// Every well-formed pattern's canonical text parses back to that pattern.
pub proof fn lemma_parse_source(p: PatternView)
    requires
        pattern_wf(p),
    ensures
        parse_view(pattern_source(p)) == Ok::<PatternView, nat>(p),
{
    let s = pattern_source(p);
    lemma_scan_is_run(s);
    if p.nodes.len() == 0 {
        if p.trailing {
            lemma_run_one(scan_start(), '>');
        }
        assert(p.nodes =~= Seq::<NodeView>::empty());
    } else {
        lemma_nodes_run(p.nodes);
        let a = after_node(p.nodes.drop_last(), p.nodes.last());
        assert(p.nodes.drop_last().push(p.nodes.last()) =~= p.nodes);
        if p.trailing {
            lemma_run_concat(scan_start(), nodes_source(p.nodes), seq!['.', '>']);
            lemma_run_two(a, '.', '>');
        }
    }
}


/// The text of the matchers before the current one, with its trailing dot.
pub open spec fn source_prefix(nodes: Seq<NodeView>) -> Seq<char> {
    if nodes.len() == 0 {
        Seq::empty()
    } else {
        nodes_source(nodes) + seq!['.']
    }
}

/// What a scanner state says of the text that produced it.
pub open spec fn scan_inv(st: Scan, s: Seq<char>) -> bool {
    let pre = source_prefix(st.nodes);
    &&& forall|i: int| 0 <= i < st.nodes.len() ==> node_wf(#[trigger] st.nodes[i])
    &&& match st.mode {
        ScanMode::SegStart => s == pre,
        ScanMode::LeadDot => st.nodes.len() == 0 && s == seq!['.'],
        ScanMode::Lit => st.buf.len() > 0 && s == pre + escape_text(st.buf),
        ScanMode::LitEsc => s == pre + escape_text(st.buf) + seq!['\\'],
        ScanMode::ArgOpen => s == pre + seq!['{'],
        ScanMode::ArgName => is_ident(st.buf) && s == pre + seq!['{'] + st.buf,
        ScanMode::ArgDone => (st.buf.len() == 0 || is_ident(st.buf)) && s == pre + node_text(
            arg_of(st.buf),
        ),
        ScanMode::Rest => s == pre + seq!['>'] || (st.nodes.len() == 0 && s == seq!['.', '>']),
    }
}

proof fn lemma_source_push(ns: Seq<NodeView>, n: NodeView)
    ensures
        nodes_source(ns.push(n)) == source_prefix(ns) + node_source(n),
{
    let m = ns.push(n);
    assert(m.drop_last() =~= ns);
    assert(m.last() == n);
    if ns.len() == 0 {
        assert(m[0] == n);
        assert(source_prefix(ns) + node_source(n) =~= node_source(n));
    }
}

proof fn lemma_scan_inv(s: Seq<char>)
    ensures
        scan(s) matches Ok(st) ==> scan_inv(st, s),
    decreases s.len(),
{
    if s.len() == 0 {
        assert(s =~= Seq::<char>::empty());
        assert(source_prefix(Seq::<NodeView>::empty()) == Seq::<char>::empty());
    } else {
        let p = s.drop_last();
        let c = s.last();
        lemma_scan_inv(p);
        assert(s =~= p.push(c));
        if let Ok(st) = scan(p) {
            if let Some(st2) = scan_step(st, c) {
                let pre = source_prefix(st.nodes);
                match st.mode {
                    ScanMode::SegStart => {
                        if c == '{' || c == '>' {
                            assert(s =~= pre + seq![c]);
                        } else if c == '\\' {
                            assert(s =~= pre + escape_text(Seq::<char>::empty()) + seq!['\\']);
                        } else if c == '.' {
                            assert(s =~= seq!['.']);
                        } else {
                            assert(seq![c].drop_last() =~= Seq::<char>::empty());
                            assert(escape_text(Seq::<char>::empty()) == Seq::<char>::empty());
                            assert(escape_text(seq![c]) =~= seq![c]);
                            assert(s =~= pre + escape_text(seq![c]));
                        }
                    },
                    ScanMode::LeadDot => {
                        assert(s =~= seq!['.', '>']);
                    },
                    ScanMode::Lit => {
                        if c == '.' {
                            lemma_source_push(st.nodes, NodeView::Const(st.buf));
                            assert(s =~= source_prefix(st2.nodes));
                            assert forall|i: int| 0 <= i < st2.nodes.len() implies node_wf(
                                #[trigger] st2.nodes[i],
                            ) by {
                                if i < st.nodes.len() {
                                    assert(st2.nodes[i] == st.nodes[i]);
                                }
                            }
                        } else if c == '\\' {
                            assert(s =~= pre + escape_text(st.buf) + seq!['\\']);
                        } else {
                            let b2 = st.buf.push(c);
                            assert(b2.drop_last() =~= st.buf);
                            assert(s =~= pre + escape_text(b2));
                        }
                    },
                    ScanMode::LitEsc => {
                        let b2 = st.buf.push(c);
                        assert(b2.drop_last() =~= st.buf);
                        assert(s =~= pre + escape_text(b2));
                    },
                    ScanMode::ArgOpen => {
                        if c == '}' {
                            assert(s =~= pre + node_text(arg_of(Seq::<char>::empty())));
                        } else {
                            assert(s =~= pre + seq!['{'] + seq![c]);
                        }
                    },
                    ScanMode::ArgName => {
                        if c == '}' {
                            assert(s =~= pre + node_text(arg_of(st.buf)));
                        } else {
                            let b2 = st.buf.push(c);
                            assert forall|i: int| 1 <= i < b2.len() implies is_ident_continue(
                                #[trigger] b2[i],
                            ) by {
                                if i < st.buf.len() {
                                    assert(b2[i] == st.buf[i]);
                                }
                            }
                            assert(s =~= pre + seq!['{'] + b2);
                        }
                    },
                    ScanMode::ArgDone => {
                        lemma_source_push(st.nodes, arg_of(st.buf));
                        assert(s =~= source_prefix(st2.nodes));
                        assert forall|i: int| 0 <= i < st2.nodes.len() implies node_wf(
                            #[trigger] st2.nodes[i],
                        ) by {
                            if i < st.nodes.len() {
                                assert(st2.nodes[i] == st.nodes[i]);
                            }
                        }
                    },
                    ScanMode::Rest => {},
                }
                assert(scan_inv(st2, s));
                assert(scan(s) == Ok::<Scan, nat>(st2));
            }
        }
    }
}

/// The pattern that matches every topic: no matchers, then the trailing wildcard.
pub open spec fn catch_all() -> PatternView {
    PatternView { nodes: Seq::empty(), trailing: true }
}

/// Parsing is the inverse of writing a pattern out: a text parses to `p`
/// exactly when `p` is well formed and the text is its canonical source
/// (with `.>` accepted as a second spelling of `>`).
pub proof fn lemma_parse_inverts_source(s: Seq<char>, p: PatternView)
    ensures
        parse_view(s) == Ok::<PatternView, nat>(p) <==> (pattern_wf(p) && (pattern_source(p) == s
            || (s == seq!['.', '>'] && p == catch_all()))),
{
    lemma_scan_inv(s);
    if parse_view(s) == Ok::<PatternView, nat>(p) {
        let st = scan(s)->Ok_0;
        let pre = source_prefix(st.nodes);
        match st.mode {
            ScanMode::Lit => {
                lemma_source_push(st.nodes, NodeView::Const(st.buf));
                assert(pattern_source(p) == s);
            },
            ScanMode::ArgDone => {
                lemma_source_push(st.nodes, arg_of(st.buf));
                assert(pattern_source(p) == s);
            },
            ScanMode::Rest => {
                if st.nodes.len() == 0 {
                    assert(p.nodes =~= Seq::<NodeView>::empty());
                    assert(s =~= seq!['>'] || s =~= seq!['.', '>']);
                } else {
                    assert(pre + seq!['>'] =~= nodes_source(st.nodes) + seq!['.', '>']);
                    assert(pattern_source(p) == s);
                }
            },
            _ => {
                assert(p.nodes =~= Seq::<NodeView>::empty());
                assert(pattern_source(p) == s);
            },
        }
        assert forall|i: int| 0 <= i < p.nodes.len() implies node_wf(#[trigger] p.nodes[i]) by {
            if i < st.nodes.len() {
                assert(p.nodes[i] == st.nodes[i]);
            }
        }
    }
    if pattern_wf(p) && pattern_source(p) == s {
        lemma_parse_source(p);
    }
    if s == seq!['.', '>'] && p == catch_all() {
        lemma_scan_is_run(s);
        lemma_run_two(scan_start(), '.', '>');
        assert(p.nodes =~= Seq::<NodeView>::empty());
    }
}


/// Segments joined back with dots.
pub open spec fn join_dots(segs: Seq<Seq<char>>) -> Seq<char>
    decreases segs.len(),
{
    if segs.len() == 0 {
        Seq::empty()
    } else if segs.len() == 1 {
        segs[0]
    } else {
        join_dots(segs.drop_last()) + seq!['.'] + segs.last()
    }
}

/// Joining a text's segments with dots gives the text back.
proof fn lemma_join_split(t: Seq<char>)
    ensures
        join_dots(split_dots(t)) == t,
    decreases t.len(),
{
    if t.len() == 0 {
        assert(split_dots(t) =~= seq![Seq::<char>::empty()]);
        assert(t =~= Seq::<char>::empty());
    } else {
        let p = t.drop_last();
        let c = t.last();
        lemma_join_split(p);
        lemma_split_nonempty(p);
        let prev = split_dots(p);
        if c == '.' {
            let s = prev.push(Seq::<char>::empty());
            assert(s.drop_last() =~= prev);
            assert(join_dots(s) =~= t);
        } else {
            let s = prev.update(prev.len() - 1, prev.last().push(c));
            assert(t =~= p.push(c));
            assert(s.last() == prev.last().push(c));
            if prev.len() == 1 {
                assert(join_dots(prev) == prev[0]);
                assert(s[0] == s.last());
                assert(join_dots(s) =~= t);
            } else {
                assert(s.drop_last() =~= prev.drop_last());
                assert(join_dots(prev) == join_dots(prev.drop_last()) + seq!['.'] + prev.last());
                assert(join_dots(s) =~= t);
            }
        }
    }
}

/// Splitting two texts joined by a dot gives the segments of each, in turn.
proof fn lemma_split_concat(a: Seq<char>, b: Seq<char>)
    ensures
        split_dots(a + seq!['.'] + b) == split_dots(a) + split_dots(b),
    decreases b.len(),
{
    let ab = a + seq!['.'] + b;
    lemma_split_nonempty(a);
    if b.len() == 0 {
        assert(ab =~= a.push('.'));
        assert(ab.drop_last() =~= a);
        assert(split_dots(ab) =~= split_dots(a) + split_dots(b));
    } else {
        lemma_split_concat(a, b.drop_last());
        lemma_split_nonempty(b.drop_last());
        assert(ab.drop_last() =~= a + seq!['.'] + b.drop_last());
        assert(ab.last() == b.last());
        assert(split_dots(ab) =~= split_dots(a) + split_dots(b));
    }
}

/// Whether every matcher is a literal.
pub open spec fn all_literal(ns: Seq<NodeView>) -> bool {
    forall|i: int| 0 <= i < ns.len() ==> (#[trigger] ns[i]) is Const
}

proof fn lemma_expand_literals(ns: Seq<NodeView>)
    requires
        ns.len() > 0,
        all_literal(ns),
    ensures
        expand_nodes(ns) == split_dots(join_texts(ns)).map_values(|x: Seq<char>| NodeView::Const(x)),
    decreases ns.len(),
{
    let prev = ns.drop_last();
    assert(ns.last() is Const);
    if ns.len() == 1 {
        assert(prev =~= Seq::<NodeView>::empty());
        assert(expand_nodes(prev) == Seq::<NodeView>::empty());
        assert(ns.last() == ns[0]);
        assert(expand_nodes(ns) =~= expand_node(ns[0]));
        assert(expand_nodes(ns) =~= split_dots(join_texts(ns)).map_values(
            |x: Seq<char>| NodeView::Const(x),
        ));
    } else {
        assert forall|i: int| 0 <= i < prev.len() implies (#[trigger] prev[i]) is Const by {
            assert(prev[i] == ns[i]);
        }
        lemma_expand_literals(prev);
        lemma_split_concat(join_texts(prev), node_text(ns.last()));
        assert(expand_nodes(ns) =~= split_dots(join_texts(ns)).map_values(
            |x: Seq<char>| NodeView::Const(x),
        ));
    }
}

/// A pattern made of literals only, without the trailing wildcard, matches
/// exactly one topic: its literals joined with dots. So `a.b` matches only
/// `a.b`, and the single literal `a\.b` (an escaped dot) matches the topic
/// `a.b` too.
pub proof fn lemma_literal_pattern_matches_one_topic(p: PatternView, topic: Seq<char>)
    requires
        p.nodes.len() > 0,
        all_literal(p.nodes),
        !p.trailing,
    ensures
        matches_view(p, topic) <==> topic == join_texts(p.nodes),
{
    let j = join_texts(p.nodes);
    lemma_expand_literals(p.nodes);
    let lit = split_dots(j);
    let segs = split_dots(topic);
    let ex = expand_nodes(p.nodes);
    if matches_view(p, topic) {
        assert forall|i: int| 0 <= i < lit.len() implies lit[i] == segs[i] by {
            assert(ex[i] == NodeView::Const(lit[i]));
            assert(node_accepts(ex[i], segs[i]));
        }
        assert(lit =~= segs);
        lemma_join_split(j);
        lemma_join_split(topic);
    }
    if topic == j {
        assert forall|i: int| 0 <= i < ex.len() implies node_accepts(#[trigger] ex[i], segs[i]) by {
            assert(ex[i] == NodeView::Const(lit[i]));
        }
    }
}

} // verus!

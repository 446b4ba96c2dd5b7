//! The Prometheus text-exposition builder: a label stack, metric groups
//! deduplicated by fully-qualified name, and insertion-ordered rendering.

use vstd::prelude::*;

use crate::strings::{
    append_chars, escape_chars_into, escape_seq, stack_pop, stack_push, PName, PNameBuilder,
};

verus! {

/// The text one label contributes: `{name="value"` for the first label,
/// `, name="value"` after it, with the value escaped.
pub open spec fn label_fragment(first: bool, name: Seq<char>, value: Seq<char>) -> Seq<char> {
    (if first {
        seq!['{']
    } else {
        seq![',', ' ']
    }) + name + seq!['=', '"'] + escape_seq(value) + seq!['"']
}

/// Appends one label to `out`: the separator (`{` when no label has been
/// written yet, `, ` otherwise), the name, `="`, the escaped value and `"`.
pub fn write_label(name: &PName, value: &str, out: &mut Vec<char>, has_labels: bool)
    ensures
        final(out)@ == old(out)@ + label_fragment(!has_labels, name@, value@),
{
    if has_labels {
        out.push(',');
        out.push(' ');
    } else {
        out.push('{');
    }
    append_chars(out, name.as_chars());
    out.push('=');
    out.push('"');
    escape_chars_into(out, value);
    out.push('"');
    proof {
        assert(final(out)@ =~= old(out)@ + label_fragment(!has_labels, name@, value@));
    }
}

/// The rendered form of the label stack: empty when no labels are pushed,
/// otherwise the accumulated text closed with `}`.
pub open spec fn rendered_labels(text: Seq<char>) -> Seq<char> {
    if text.len() == 0 {
        Seq::<char>::empty()
    } else {
        text + seq!['}']
    }
}

/// An incrementally built `{k1="v1", k2="v2", …}` label set with marks for
/// O(1) unwinding.
pub struct LabelBuilder {
    buf: Vec<char>,
    waypoints: Vec<usize>,
}

impl LabelBuilder {
    /// The accumulated label text, without the closing brace.
    pub closed spec fn text(&self) -> Seq<char> {
        self.buf@
    }

    /// The recorded label starts.
    pub closed spec fn marks(&self) -> Seq<usize> {
        self.waypoints@
    }

    /// No mark points past the text and marks never decrease; every
    /// constructor establishes this and every method preserves it.
    pub open spec fn wf(&self) -> bool {
        &&& forall|i: int| 0 <= i < self.marks().len() ==> #[trigger] self.marks()[i] <= self.text().len()
        &&& forall|i: int, j: int|
            0 <= i <= j < self.marks().len() ==> #[trigger] self.marks()[i] <= #[trigger] self.marks()[j]
    }

    /// An empty label stack.
    pub fn new() -> (r: LabelBuilder)
        ensures
            r.text() == Seq::<char>::empty(),
            r.marks() == Seq::<usize>::empty(),
            r.wf(),
    {
        LabelBuilder { buf: Vec::new(), waypoints: Vec::new() }
    }

    /// Pushes one label with an escaped value.
    pub fn push(&mut self, name: &PName, value: &str)
        requires
            old(self).wf(),
        ensures
            final(self).text() == old(self).text() + label_fragment(
                old(self).text().len() == 0,
                name@,
                value@,
            ),
            final(self).marks() == old(self).marks().push(old(self).text().len() as usize),
            final(self).wf(),
            old(self).text().len() <= usize::MAX,
    {
        self.waypoints.push(self.buf.len());
        let has_labels = self.buf.len() != 0;
        write_label(name, value, &mut self.buf, has_labels);
        proof {
            let m0 = old(self).marks();
            let m1 = self.marks();
            assert(self.text().len() >= old(self).text().len());
            assert forall|i: int| 0 <= i < m1.len() implies #[trigger] m1[i] <= self.text().len() by {
                if i < m0.len() {
                    assert(m1[i] == m0[i]);
                } else {
                    assert(m1[i] == old(self).text().len());
                }
            }
            assert forall|i: int, j: int| 0 <= i <= j < m1.len() implies #[trigger] m1[i]
                <= #[trigger] m1[j] by {
                if j < m0.len() {
                } else {
                    if i < m0.len() {
                        assert(m0[i] <= old(self).text().len());
                    }
                }
            }
        }
    }

    /// Unwinds the most recent label; reports whether there was one.
    pub fn pop(&mut self) -> (r: bool)
        requires
            old(self).wf(),
        ensures
            (final(self).text(), final(self).marks()) == stack_pop(
                old(self).text(),
                old(self).marks(),
            ),
            r == (old(self).marks().len() != 0),
            final(self).wf(),
    {
        match self.waypoints.pop() {
            Some(len) => {
                self.buf.truncate(len);
                true
            },
            None => false,
        }
    }

    /// Empties the stack.
    pub fn clear(&mut self)
        ensures
            final(self).text() == Seq::<char>::empty(),
            final(self).marks() == Seq::<usize>::empty(),
            final(self).wf(),
    {
        self.buf.clear();
        self.waypoints.clear();
    }

    /// Whether any label text has been written.
    pub fn is_empty(&self) -> (r: bool)
        ensures
            r == (self.text().len() == 0),
    {
        self.buf.len() == 0
    }

    /// Appends the rendered label set: nothing when empty, the text plus the
    /// closing brace otherwise.
    pub(crate) fn push_rendered(&self, out: &mut Vec<char>)
        ensures
            final(out)@ == old(out)@ + rendered_labels(self.text()),
    {
        if self.buf.len() != 0 {
            append_chars(out, &self.buf);
            out.push('}');
            proof {
                assert(final(out)@ =~= old(out)@ + rendered_labels(self.text()));
            }
        }
    }
}

/// The mathematical model of one metric group: its fully-qualified name,
/// its `# HELP`/`# TYPE` header text, and its sample lines.
pub type GroupModel = (Seq<char>, Seq<char>, Seq<Seq<char>>);

/// The kind written on a metric's `# TYPE` line.
#[derive(Clone, Copy, Debug, PartialEq, Eq, Structural)]
pub enum MetricType {
    Counter,
    Gauge,
    Histogram,
    Summary,
    Untyped,
}

impl MetricType {
    /// The text of the kind.
    pub open spec fn text(self) -> Seq<char> {
        match self {
            MetricType::Counter => "counter"@,
            MetricType::Gauge => "gauge"@,
            MetricType::Histogram => "histogram"@,
            MetricType::Summary => "summary"@,
            MetricType::Untyped => "untyped"@,
        }
    }

    /// The text of the kind.
    pub fn as_str(self) -> (r: &'static str)
        ensures
            r@ == self.text(),
    {
        match self {
            MetricType::Counter => "counter",
            MetricType::Gauge => "gauge",
            MetricType::Histogram => "histogram",
            MetricType::Summary => "summary",
            MetricType::Untyped => "untyped",
        }
    }
}

/// Help text is single-line by exposition rules: newlines become spaces.
pub open spec fn sanitize_help(help: Seq<char>) -> Seq<char> {
    help.map_values(|c: char| if c == '\n' { ' ' } else { c })
}

/// The header of a metric group:
/// `# HELP <name> <help>\n# TYPE <name> <type>\n`.
pub open spec fn header_text(name: Seq<char>, ty: MetricType, help: Seq<char>) -> Seq<char> {
    "# HELP "@ + name + seq![' '] + sanitize_help(help) + seq!['\n'] + "# TYPE "@ + name
        + seq![' '] + ty.text() + seq!['\n']
}

/// Whether some group carries this name.
pub open spec fn has_group(ms: Seq<GroupModel>, name: Seq<char>) -> bool {
    exists|i: int| 0 <= i < ms.len() && ms[i].0 == name
}

/// The index of the group carrying this name.
pub open spec fn group_index(ms: Seq<GroupModel>, name: Seq<char>) -> int {
    choose|i: int| 0 <= i < ms.len() && ms[i].0 == name
}

/// Group names never repeat.
pub open spec fn distinct_names(ms: Seq<GroupModel>) -> bool {
    forall|i: int, j: int| 0 <= i < j < ms.len() ==> (#[trigger] ms[i].0) != (#[trigger] ms[j].0)
}

/// What starting a metric does to the groups: nothing when the name already
/// has a group, else a new group with the given header and no lines.
pub open spec fn begin_model(
    ms: Seq<GroupModel>,
    full: Seq<char>,
    ty: MetricType,
    help: Seq<char>,
) -> Seq<GroupModel> {
    if has_group(ms, full) {
        ms
    } else {
        ms.push((full, header_text(full, ty, help), Seq::<Seq<char>>::empty()))
    }
}

/// What adding a line does to the groups: the line is appended to the group
/// carrying `full`; all other groups are untouched.
pub open spec fn add_line_model(ms: Seq<GroupModel>, full: Seq<char>, line: Seq<char>) -> Seq<
    GroupModel,
> {
    let i = group_index(ms, full);
    ms.update(i, (ms[i].0, ms[i].1, ms[i].2.push(line)))
}

/// The trailing timestamp of a sample line: nothing, or a space and the
/// Unix milliseconds.
pub open spec fn ts_text(at: Option<u64>) -> Seq<char> {
    match at {
        Option::None => Seq::<char>::empty(),
        Option::Some(t) => seq![' '] + crate::go_floats::dec_seq(t as int),
    }
}

/// One sample line as stored in a group: the name suffix pushed inside the
/// metric, the rendered label set, a space, the value, the optional
/// timestamp, and a newline. The group's own name is not part of the line;
/// rendering prefixes it.
pub open spec fn line_text(
    suffix: Seq<char>,
    labels: Seq<char>,
    value: Seq<char>,
    at: Option<u64>,
) -> Seq<char> {
    suffix + rendered_labels(labels) + seq![' '] + value + ts_text(at) + seq!['\n']
}

/// The groups after one labeled sample line per pair has been added to the
/// group carrying `full`: each pair is a label value and the rendered sample
/// value, written with `label_name` as the one extra label.
pub open spec fn labeled_lines_model(
    ms: Seq<GroupModel>,
    full: Seq<char>,
    labels: Seq<char>,
    label_name: Seq<char>,
    pairs: Seq<(Seq<char>, Seq<char>)>,
) -> Seq<GroupModel>
    decreases pairs.len(),
{
    if pairs.len() == 0 {
        ms
    } else {
        labeled_lines_model(
            add_line_model(
                ms,
                full,
                line_text(
                    Seq::<char>::empty(),
                    labels + label_fragment(labels.len() == 0, label_name, pairs[0].0),
                    pairs[0].1,
                    Option::None,
                ),
            ),
            full,
            labels,
            label_name,
            pairs.skip(1),
        )
    }
}

/// The labeled-lines fold splits over concatenation of the pair list.
pub proof fn lemma_labeled_lines_app(
    ms: Seq<GroupModel>,
    full: Seq<char>,
    labels: Seq<char>,
    label_name: Seq<char>,
    a: Seq<(Seq<char>, Seq<char>)>,
    b: Seq<(Seq<char>, Seq<char>)>,
)
    ensures
        labeled_lines_model(ms, full, labels, label_name, a + b) == labeled_lines_model(
            labeled_lines_model(ms, full, labels, label_name, a),
            full,
            labels,
            label_name,
            b,
        ),
    decreases a.len(),
{
    if a.len() == 0 {
        assert(a + b =~= b);
    } else {
        assert((a + b).skip(1) =~= a.skip(1) + b);
        assert((a + b)[0] == a[0]);
        lemma_labeled_lines_app(
            add_line_model(
                ms,
                full,
                line_text(
                    Seq::<char>::empty(),
                    labels + label_fragment(labels.len() == 0, label_name, a[0].0),
                    a[0].1,
                    Option::None,
                ),
            ),
            full,
            labels,
            label_name,
            a.skip(1),
            b,
        );
    }
}

/// One metric group: its fully-qualified name, its header text, and its
/// sample lines in call order.
pub(crate) struct MetricGroup {
    pub(crate) name: Vec<char>,
    pub(crate) header: Vec<char>,
    pub(crate) lines: Vec<Vec<char>>,
}

/// The model of one group.
pub(crate) closed spec fn group_model(g: MetricGroup) -> GroupModel {
    (g.name@, g.header@, g.lines.deep_view())
}

/// The rendering of one group: skipped entirely when it has no lines, else
/// the header followed by each line prefixed with the group name.
pub open spec fn render_lines(name: Seq<char>, lines: Seq<Seq<char>>) -> Seq<char>
    decreases lines.len(),
{
    if lines.len() == 0 {
        Seq::<char>::empty()
    } else {
        name + lines[0] + render_lines(name, lines.skip(1))
    }
}

/// The rendering of one group.
pub open spec fn render_group(g: GroupModel) -> Seq<char> {
    if g.2.len() == 0 {
        Seq::<char>::empty()
    } else {
        g.1 + render_lines(g.0, g.2)
    }
}

/// The rendering of all groups, in insertion order.
pub open spec fn render_models(ms: Seq<GroupModel>) -> Seq<char>
    decreases ms.len(),
{
    if ms.len() == 0 {
        Seq::<char>::empty()
    } else {
        render_group(ms[0]) + render_models(ms.skip(1))
    }
}

/// Rendering distributes over concatenation of group sequences.
pub proof fn lemma_render_models_app(a: Seq<GroupModel>, b: Seq<GroupModel>)
    ensures
        render_models(a + b) == render_models(a) + render_models(b),
    decreases a.len(),
{
    if a.len() == 0 {
        assert(a + b =~= b);
        assert(render_models(a) + render_models(b) =~= render_models(b));
    } else {
        assert((a + b).skip(1) =~= a.skip(1) + b);
        lemma_render_models_app(a.skip(1), b);
        assert(render_models(a + b) =~= render_group(a[0]) + render_models(a.skip(1))
            + render_models(b));
    }
}

/// Line rendering distributes over concatenation of line sequences.
pub proof fn lemma_render_lines_app(name: Seq<char>, a: Seq<Seq<char>>, b: Seq<Seq<char>>)
    ensures
        render_lines(name, a + b) == render_lines(name, a) + render_lines(name, b),
    decreases a.len(),
{
    if a.len() == 0 {
        assert(a + b =~= b);
        assert(render_lines(name, a) + render_lines(name, b) =~= render_lines(name, b));
    } else {
        assert((a + b).skip(1) =~= a.skip(1) + b);
        lemma_render_lines_app(name, a.skip(1), b);
        assert(render_lines(name, a + b) =~= name + a[0] + render_lines(name, a.skip(1))
            + render_lines(name, b));
    }
}

/// A group without lines is not emitted: rendering with it equals rendering
/// without it.
pub proof fn lemma_empty_group_not_emitted(ms: Seq<GroupModel>, i: int)
    requires
        0 <= i < ms.len(),
        ms[i].2.len() == 0,
    ensures
        render_models(ms) == render_models(ms.remove(i)),
{
    assert(ms =~= ms.take(i) + seq![ms[i]] + ms.skip(i + 1));
    assert(ms.remove(i) =~= ms.take(i) + ms.skip(i + 1));
    lemma_render_models_app(ms.take(i) + seq![ms[i]], ms.skip(i + 1));
    lemma_render_models_app(ms.take(i), seq![ms[i]]);
    lemma_render_models_app(ms.take(i), ms.skip(i + 1));
    assert(seq![ms[i]].skip(1) =~= Seq::<GroupModel>::empty());
    assert(render_models(Seq::<GroupModel>::empty()) == Seq::<char>::empty());
    assert(render_group(ms[i]) =~= Seq::<char>::empty());
    assert(render_models(seq![ms[i]]) =~= Seq::<char>::empty());
    assert(render_models(ms.take(i)) + Seq::<char>::empty() =~= render_models(ms.take(i)));
}

/// Starting a metric under a name twice writes its header once: the second
/// start changes nothing, and lines added around either start land in the
/// one group for that name, in call order.
pub proof fn lemma_metric_dedup(
    ms: Seq<GroupModel>,
    full: Seq<char>,
    ty: MetricType,
    help: Seq<char>,
    l1: Seq<char>,
    l2: Seq<char>,
)
    requires
        distinct_names(ms),
        !has_group(ms, full),
    ensures
        ({
            let once = add_line_model(begin_model(ms, full, ty, help), full, l1);
            let twice = add_line_model(begin_model(once, full, ty, help), full, l2);
            &&& begin_model(once, full, ty, help) == once
            &&& twice.len() == ms.len() + 1
            &&& twice[ms.len() as int].0 == full
            &&& twice[ms.len() as int].1 == header_text(full, ty, help)
            &&& twice[ms.len() as int].2 == seq![l1, l2]
            &&& forall|k: int| 0 <= k < ms.len() ==> twice[k] == ms[k]
        }),
{
    let started = begin_model(ms, full, ty, help);
    let fresh = (full, header_text(full, ty, help), Seq::<Seq<char>>::empty());
    assert(started == ms.push(fresh));
    let i = ms.len() as int;
    assert(started[i].0 == full);
    assert(has_group(started, full));
    assert(group_index(started, full) == i) by {
        let j = group_index(started, full);
        assert(0 <= j < started.len() && started[j].0 == full) by {
            assert(started[i].0 == full);
        }
        if j != i {
            assert(ms[j].0 == full);
            assert(has_group(ms, full));
        }
    }
    let once = add_line_model(started, full, l1);
    assert(once[i].0 == full);
    assert(once.len() == started.len());
    assert(forall|k: int| 0 <= k < ms.len() ==> once[k] == ms[k]);
    assert(has_group(once, full)) by {
        assert(once[i].0 == full);
    }
    assert(begin_model(once, full, ty, help) == once);
    assert(group_index(once, full) == i) by {
        let j = group_index(once, full);
        assert(0 <= j < once.len() && once[j].0 == full) by {
            assert(once[i].0 == full);
        }
        if j != i {
            assert(ms[j].0 == full);
            assert(has_group(ms, full));
        }
    }
    let twice = add_line_model(once, full, l2);
    assert(twice[i].2 =~= seq![l1, l2]) by {
        assert(once[i].2 =~= seq![l1]);
    }
}

/// Outside a metric nothing is saved.
pub proof fn lemma_outside_metric_saved(b: &ExpositionBuilder)
    requires
        b.wf(),
        !b.in_metric(),
    ensures
        b.saved_text() == Seq::<char>::empty(),
        b.saved_marks() == Seq::<usize>::empty(),
{
    assert(b.saved_text() =~= Seq::<char>::empty());
    assert(b.saved_marks() =~= Seq::<usize>::empty());
}

/// The label stack, the name stack and the saved name stack are the same in
/// both states.
pub open spec fn unchanged_stacks(a: &ExpositionBuilder, b: &ExpositionBuilder) -> bool {
    &&& b.labels_text() == a.labels_text()
    &&& b.labels_marks() == a.labels_marks()
    &&& b.name_text() == a.name_text()
    &&& b.name_marks() == a.name_marks()
    &&& b.saved_text() == a.saved_text()
    &&& b.saved_marks() == a.saved_marks()
}

/// Accumulates metric groups and renders them as Prometheus text. Groups are
/// keyed by fully-qualified metric name, deduplicated, and emitted in
/// insertion order; the label and name stacks are threaded through every
/// line.
pub struct ExpositionBuilder {
    groups: Vec<MetricGroup>,
    labels: LabelBuilder,
    name: PNameBuilder,
    saved_name: PNameBuilder,
    active_group: usize,
    in_metric: bool,
}

impl ExpositionBuilder {
    /// The models of the accumulated groups, in insertion order.
    pub closed spec fn models(&self) -> Seq<GroupModel> {
        self.groups@.map_values(|g: MetricGroup| group_model(g))
    }

    /// Whether a metric is being built.
    pub closed spec fn in_metric(&self) -> bool {
        self.in_metric
    }

    /// The fully-qualified name of the metric being built.
    pub closed spec fn active_name(&self) -> Seq<char> {
        self.models()[self.active_group as int].0
    }

    /// The name-stack text saved when the current metric began.
    pub closed spec fn saved_text(&self) -> Seq<char> {
        self.saved_name.text()
    }

    /// The name-stack marks saved when the current metric began.
    pub closed spec fn saved_marks(&self) -> Seq<usize> {
        self.saved_name.marks()
    }

    /// The text of the label stack.
    pub closed spec fn labels_text(&self) -> Seq<char> {
        self.labels.text()
    }

    /// The marks of the label stack.
    pub closed spec fn labels_marks(&self) -> Seq<usize> {
        self.labels.marks()
    }

    /// The text of the name stack; inside a metric it holds only the
    /// suffixes pushed since the metric began.
    pub closed spec fn name_text(&self) -> Seq<char> {
        self.name.text()
    }

    /// The marks of the name stack.
    pub closed spec fn name_marks(&self) -> Seq<usize> {
        self.name.marks()
    }

    /// The stacks are well-formed, group names never repeat, and outside a
    /// metric nothing is saved.
    pub closed spec fn wf(&self) -> bool {
        &&& self.labels.wf()
        &&& self.name.wf()
        &&& self.saved_name.wf()
        &&& distinct_names(self.models())
        &&& self.in_metric() ==> (self.active_group as int) < self.models().len()
        &&& !self.in_metric() ==> self.saved_text().len() == 0 && self.saved_marks().len() == 0
    }

    /// An empty builder: no groups, empty stacks, no metric being built.
    pub fn new() -> (r: ExpositionBuilder)
        ensures
            r.models() == Seq::<GroupModel>::empty(),
            r.labels_text() == Seq::<char>::empty(),
            r.labels_marks() == Seq::<usize>::empty(),
            r.name_text() == Seq::<char>::empty(),
            r.name_marks() == Seq::<usize>::empty(),
            !r.in_metric(),
            r.wf(),
    {
        let r = ExpositionBuilder {
            groups: Vec::new(),
            labels: LabelBuilder::new(),
            name: PNameBuilder::new(),
            saved_name: PNameBuilder::new(),
            active_group: 0,
            in_metric: false,
        };
        proof {
            assert(r.models() =~= Seq::<GroupModel>::empty());
        }
        r
    }

    /// Pushes one label onto the label stack; every line written until the
    /// matching `pop_label` carries it. Push/pop pairs are balanced: the pop
    /// restores the stack exactly.
    pub fn push_label(&mut self, name: &PName, value: &str)
        requires
            old(self).wf(),
        ensures
            final(self).wf(),
            final(self).labels_text() == old(self).labels_text() + label_fragment(
                old(self).labels_text().len() == 0,
                name@,
                value@,
            ),
            final(self).labels_marks() == old(self).labels_marks().push(
                old(self).labels_text().len() as usize,
            ),
            final(self).models() == old(self).models(),
            final(self).in_metric() == old(self).in_metric(),
            final(self).in_metric() ==> final(self).active_name() == old(self).active_name(),
            (final(self).name_text(), final(self).name_marks()) == (
                old(self).name_text(),
                old(self).name_marks(),
            ),
            (final(self).saved_text(), final(self).saved_marks()) == (
                old(self).saved_text(),
                old(self).saved_marks(),
            ),
            old(self).labels_text().len() <= usize::MAX,
    {
        self.labels.push(name, value);
    }

    /// Unwinds the most recent label; reports whether there was one.
    pub fn pop_label(&mut self) -> (r: bool)
        requires
            old(self).wf(),
        ensures
            final(self).wf(),
            (final(self).labels_text(), final(self).labels_marks()) == stack_pop(
                old(self).labels_text(),
                old(self).labels_marks(),
            ),
            r == (old(self).labels_marks().len() != 0),
            final(self).models() == old(self).models(),
            final(self).in_metric() == old(self).in_metric(),
            final(self).in_metric() ==> final(self).active_name() == old(self).active_name(),
            (final(self).name_text(), final(self).name_marks()) == (
                old(self).name_text(),
                old(self).name_marks(),
            ),
            (final(self).saved_text(), final(self).saved_marks()) == (
                old(self).saved_text(),
                old(self).saved_marks(),
            ),
    {
        self.labels.pop()
    }

    /// Pushes one component onto the name stack; inside a metric this is a
    /// suffix added to the lines written until the matching `pop_name`.
    pub fn push_name(&mut self, name: &PName)
        requires
            old(self).wf(),
        ensures
            final(self).wf(),
            (final(self).name_text(), final(self).name_marks()) == stack_push(
                old(self).name_text(),
                old(self).name_marks(),
                name@,
            ),
            final(self).models() == old(self).models(),
            final(self).in_metric() == old(self).in_metric(),
            final(self).in_metric() ==> final(self).active_name() == old(self).active_name(),
            (final(self).labels_text(), final(self).labels_marks()) == (
                old(self).labels_text(),
                old(self).labels_marks(),
            ),
            (final(self).saved_text(), final(self).saved_marks()) == (
                old(self).saved_text(),
                old(self).saved_marks(),
            ),
            old(self).name_text().len() <= usize::MAX,
    {
        self.name.push(name);
    }

    /// Unwinds the most recent name component; reports whether there was one.
    pub fn pop_name(&mut self) -> (r: bool)
        requires
            old(self).wf(),
        ensures
            final(self).wf(),
            (final(self).name_text(), final(self).name_marks()) == stack_pop(
                old(self).name_text(),
                old(self).name_marks(),
            ),
            r == (old(self).name_marks().len() != 0),
            final(self).models() == old(self).models(),
            final(self).in_metric() == old(self).in_metric(),
            final(self).in_metric() ==> final(self).active_name() == old(self).active_name(),
            (final(self).labels_text(), final(self).labels_marks()) == (
                old(self).labels_text(),
                old(self).labels_marks(),
            ),
            (final(self).saved_text(), final(self).saved_marks()) == (
                old(self).saved_text(),
                old(self).saved_marks(),
            ),
    {
        self.name.pop()
    }

    /// Internal: the index of the group with this name, if any.
    fn find_group(&self, full: &Vec<char>) -> (r: Option<usize>)
        ensures
            match r {
                Option::Some(i) => (i as int) < self.models().len() && self.models()[i as int].0
                    == full@,
                Option::None => !has_group(self.models(), full@),
            },
    {
        let n = self.groups.len();
        let mut i: usize = 0;
        while i < n
            invariant
                n == self.groups@.len(),
                0 <= i <= n,
                self.models().len() == n,
                forall|j: int| 0 <= j < i ==> (#[trigger] self.models()[j].0) != full@,
            decreases n - i,
        {
            if crate::strings::vec_char_eq(&self.groups[i].name, full) {
                proof {
                    assert(self.models()[i as int].0 == self.groups@[i as int].name@);
                }
                return Some(i);
            }
            i += 1;
        }
        None
    }

    /// Starts (or re-enters) the metric group for the current name plus
    /// `suffix`. A group is created with the given header only when the name
    /// is new; re-entering appends to the existing group and writes no second
    /// header. Until `end_metric`, the name stack holds only suffixes pushed
    /// inside the metric.
    pub fn begin_metric(&mut self, suffix: &PName, metric_type: MetricType, help_text: &str)
        requires
            old(self).wf(),
            !old(self).in_metric(),
        ensures
            final(self).wf(),
            final(self).in_metric(),
            final(self).models() == begin_model(
                old(self).models(),
                old(self).name_text() + suffix@,
                metric_type,
                help_text@,
            ),
            final(self).active_name() == old(self).name_text() + suffix@,
            (final(self).labels_text(), final(self).labels_marks()) == (
                old(self).labels_text(),
                old(self).labels_marks(),
            ),
            final(self).name_text() == Seq::<char>::empty(),
            final(self).name_marks() == Seq::<usize>::empty(),
            (final(self).saved_text(), final(self).saved_marks()) == stack_push(
                old(self).name_text(),
                old(self).name_marks(),
                suffix@,
            ),
            old(self).name_text().len() <= usize::MAX,
    {
        self.name.push(suffix);
        let full = crate::strings::copy_chars(self.name.as_chars());
        let ghost ms0 = self.models();
        match self.find_group(&full) {
            Some(i) => {
                self.active_group = i;
                proof {
                    assert(has_group(ms0, full@));
                    assert(begin_model(ms0, full@, metric_type, help_text@) == ms0);
                }
            },
            None => {
                let mut header: Vec<char> = Vec::new();
                crate::strings::append_str(&mut header, "# HELP ");
                append_chars(&mut header, &full);
                header.push(' ');
                push_sanitized(&mut header, help_text);
                header.push('\n');
                crate::strings::append_str(&mut header, "# TYPE ");
                append_chars(&mut header, &full);
                header.push(' ');
                crate::strings::append_str(&mut header, metric_type.as_str());
                header.push('\n');
                proof {
                    assert(header@ =~= header_text(full@, metric_type, help_text@));
                }
                self.active_group = self.groups.len();
                let name_copy = crate::strings::copy_chars(&full);
                self.groups.push(MetricGroup { name: name_copy, header, lines: Vec::new() });
                proof {
                    let nm = (full@, header_text(full@, metric_type, help_text@), Seq::<Seq<
                        char,
                    >>::empty());
                    assert(self.models().len() == ms0.len() + 1);
                    assert forall|k: int| 0 <= k < ms0.len() implies self.models()[k] == ms0[k] by {
                        assert(self.groups@[k] == old(self).groups@[k]);
                    }
                    assert(self.models()[ms0.len() as int] =~~= nm);
                    assert(self.models() =~~= ms0.push(nm));
                }
            },
        }
        self.in_metric = true;
        core::mem::swap(&mut self.name, &mut self.saved_name);
        proof {
            assert(self.active_name() == full@);
        }
    }

    /// Adds one sample line to the metric being built: the pushed name
    /// suffixes, the rendered label set, the value and the optional Unix-
    /// millisecond timestamp.
    pub fn add_line<T: crate::go_floats::SerializeGoFloat>(&mut self, data: &T, at: Option<u64>)
        requires
            old(self).wf(),
            old(self).in_metric(),
        ensures
            final(self).wf(),
            final(self).in_metric(),
            final(self).models() == add_line_model(
                old(self).models(),
                old(self).active_name(),
                line_text(
                    old(self).name_text(),
                    old(self).labels_text(),
                    data.go_view(),
                    at,
                ),
            ),
            final(self).active_name() == old(self).active_name(),
            unchanged_stacks(old(self), final(self)),
    {
        let mut line: Vec<char> = Vec::new();
        append_chars(&mut line, self.name.as_chars());
        self.labels.push_rendered(&mut line);
        line.push(' ');
        data.push_go_float(&mut line);
        if let Some(t) = at {
            line.push(' ');
            crate::go_floats::push_dec(&mut line, t);
        }
        line.push('\n');
        proof {
            assert(line@ =~= line_text(
                self.name.text(),
                self.labels.text(),
                data.go_view(),
                at,
            ));
        }
        self.push_line_to_active(line);
    }

    /// Adds one sample line with one extra label pushed around it.
    pub fn add_line_labeled<T: crate::go_floats::SerializeGoFloat>(
        &mut self,
        label: &PName,
        value: &str,
        data: &T,
        at: Option<u64>,
    )
        requires
            old(self).wf(),
            old(self).in_metric(),
        ensures
            final(self).wf(),
            final(self).in_metric(),
            final(self).models() == add_line_model(
                old(self).models(),
                old(self).active_name(),
                line_text(
                    old(self).name_text(),
                    old(self).labels_text() + label_fragment(
                        old(self).labels_text().len() == 0,
                        label@,
                        value@,
                    ),
                    data.go_view(),
                    at,
                ),
            ),
            final(self).active_name() == old(self).active_name(),
            unchanged_stacks(old(self), final(self)),
    {
        let mut line: Vec<char> = Vec::new();
        append_chars(&mut line, self.name.as_chars());
        let ghost labels0 = self.labels;
        self.labels.push(label, value);
        self.labels.push_rendered(&mut line);
        self.labels.pop();
        proof {
            crate::strings::lemma_stack_push_pop(
                labels0.text(),
                labels0.marks(),
                label_fragment(labels0.text().len() == 0, label@, value@),
            );
            assert(self.labels.text() =~= labels0.text());
            assert(self.labels.marks() =~= labels0.marks());
        }
        line.push(' ');
        data.push_go_float(&mut line);
        if let Some(t) = at {
            line.push(' ');
            crate::go_floats::push_dec(&mut line, t);
        }
        line.push('\n');
        proof {
            assert(line@ =~= line_text(
                old(self).name_text(),
                old(self).labels_text() + label_fragment(
                    old(self).labels_text().len() == 0,
                    label@,
                    value@,
                ),
                data.go_view(),
                at,
            ));
        }
        self.push_line_to_active(line);
    }

    /// Internal: appends a finished line to the active group.
    fn push_line_to_active(&mut self, line: Vec<char>)
        requires
            old(self).wf(),
            old(self).in_metric(),
        ensures
            final(self).wf(),
            final(self).in_metric(),
            final(self).models() == add_line_model(
                old(self).models(),
                old(self).active_name(),
                line@,
            ),
            final(self).active_name() == old(self).active_name(),
            unchanged_stacks(old(self), final(self)),
    {
        let ghost ms0 = self.models();
        let ghost nm = self.active_name();
        let g = self.active_group;
        let mut grp = self.groups.remove(g);
        grp.lines.push(line);
        self.groups.insert(g, grp);
        proof {
            let i = g as int;
            assert(ms0[i].0 == nm);
            let j = group_index(ms0, nm);
            assert(0 <= j < ms0.len() && ms0[j].0 == nm) by {
                assert(0 <= i < ms0.len() && ms0[i].0 == nm);
            }
            assert(j == i) by {
                if j != i {
                    assert(ms0[i].0 != ms0[j].0);
                }
            }
            assert(self.models().len() == ms0.len());
            assert forall|k: int| 0 <= k < self.models().len() implies self.models()[k] =~~= add_line_model(
                ms0,
                nm,
                line@,
            )[k] by {
                if k == i {
                    assert(self.groups@[k].lines@ == old(self).groups@[k].lines@.push(line));
                    assert(self.groups@[k].lines.deep_view() =~~= ms0[i].2.push(line@));
                    assert(self.groups@[k].name@ == old(self).groups@[k].name@);
                    assert(self.groups@[k].header@ == old(self).groups@[k].header@);
                } else {
                    assert(self.groups@[k] == old(self).groups@[k]);
                }
            }
            assert(self.models() =~~= add_line_model(ms0, nm, line@));
        }
    }

    /// Adds one labeled sample line per pair: each pair's first element is
    /// the value of the extra label `label`, its second the sample value.
    pub fn add_labeled_lines<T: crate::go_floats::SerializeGoFloat>(
        &mut self,
        label: &PName,
        pairs: &Vec<(String, T)>,
    )
        requires
            old(self).wf(),
            old(self).in_metric(),
            old(self).name_text().len() == 0,
        ensures
            final(self).wf(),
            final(self).in_metric(),
            final(self).models() == labeled_lines_model(
                old(self).models(),
                old(self).active_name(),
                old(self).labels_text(),
                label@,
                pairs@.map_values(|p: (String, T)| (p.0@, p.1.go_view())),
            ),
            final(self).active_name() == old(self).active_name(),
            unchanged_stacks(old(self), final(self)),
    {
        let ghost ms0 = self.models();
        let ghost nm = self.active_name();
        let ghost lt = self.labels_text();
        let ghost pview = pairs@.map_values(|p: (String, T)| (p.0@, p.1.go_view()));
        let n = pairs.len();
        let mut k: usize = 0;
        proof {
            assert(pview.take(0) =~= Seq::<(Seq<char>, Seq<char>)>::empty());
        }
        while k < n
            invariant
                n == pairs@.len(),
                0 <= k <= n,
                pview == pairs@.map_values(|p: (String, T)| (p.0@, p.1.go_view())),
                self.wf(),
                self.in_metric(),
                self.name_text().len() == 0,
                self.active_name() == nm,
                self.labels_text() == lt,
                self.models() == labeled_lines_model(ms0, nm, lt, label@, pview.take(k as int)),
                unchanged_stacks(old(self), self),
            decreases n - k,
        {
            let ghost pre = self.models();
            self.add_line_labeled(label, pairs[k].0.as_str(), &pairs[k].1, None);
            proof {
                assert(pview[k as int] == (pairs@[k as int].0@, pairs@[k as int].1.go_view()));
                assert(self.name_text() =~= Seq::<char>::empty());
                assert(self.models() == add_line_model(
                    pre,
                    nm,
                    line_text(
                        Seq::<char>::empty(),
                        lt + label_fragment(lt.len() == 0, label@, pview[k as int].0),
                        pview[k as int].1,
                        Option::None,
                    ),
                ));
                assert(pview.take(k + 1) =~= pview.take(k as int) + seq![pview[k as int]]);
                lemma_labeled_lines_app(ms0, nm, lt, label@, pview.take(k as int), seq![
                    pview[k as int],
                ]);
                let single = seq![pview[k as int]];
                assert(single.skip(1) =~= Seq::<(Seq<char>, Seq<char>)>::empty());
                let stepped = add_line_model(
                    pre,
                    nm,
                    line_text(
                        Seq::<char>::empty(),
                        lt + label_fragment(lt.len() == 0, label@, single[0].0),
                        single[0].1,
                        Option::None,
                    ),
                );
                assert(labeled_lines_model(pre, nm, lt, label@, single) == labeled_lines_model(
                    stepped,
                    nm,
                    lt,
                    label@,
                    single.skip(1),
                ));
                assert(labeled_lines_model(
                    stepped,
                    nm,
                    lt,
                    label@,
                    Seq::<(Seq<char>, Seq<char>)>::empty(),
                ) == stepped);
            }
            k += 1;
        }
        proof {
            assert(pview.take(n as int) =~= pview);
        }
    }

    /// Ends the metric begun by `begin_metric`: the name stack is restored to
    /// its state before the metric began, with the metric suffix popped.
    /// Leftover pushes inside the metric are discarded.
    pub fn end_metric(&mut self)
        requires
            old(self).wf(),
            old(self).in_metric(),
        ensures
            final(self).wf(),
            !final(self).in_metric(),
            final(self).models() == old(self).models(),
            (final(self).labels_text(), final(self).labels_marks()) == (
                old(self).labels_text(),
                old(self).labels_marks(),
            ),
            (final(self).name_text(), final(self).name_marks()) == stack_pop(
                old(self).saved_text(),
                old(self).saved_marks(),
            ),
    {
        core::mem::swap(&mut self.name, &mut self.saved_name);
        self.saved_name.clear();
        self.name.pop();
        self.in_metric = false;
    }

    /// Renders the accumulated groups in insertion order: groups without
    /// lines are skipped; each other group emits its header, then its lines,
    /// each prefixed with the group name.
    pub fn render(&self) -> (r: String)
        ensures
            r@ == render_models(self.models()),
    {
        let mut out: Vec<char> = Vec::new();
        let n = self.groups.len();
        let mut i: usize = 0;
        while i < n
            invariant
                n == self.groups@.len(),
                0 <= i <= n,
                self.models().len() == n,
                out@ == render_models(self.models().take(i as int)),
            decreases n - i,
        {
            let ghost ms = self.models();
            let grp = &self.groups[i];
            let m = grp.lines.len();
            if m != 0 {
                append_chars(&mut out, &grp.header);
                let mut j: usize = 0;
                while j < m
                    invariant
                        m == grp.lines@.len(),
                        0 <= j <= m,
                        out@ == render_models(self.models().take(i as int)) + self.models()[i as int].1
                            + render_lines(
                            self.models()[i as int].0,
                            self.models()[i as int].2.take(j as int),
                        ),
                        i < self.models().len(),
                        self.models()[i as int] == group_model(self.groups@[i as int]),
                        grp == &self.groups@[i as int],
                    decreases m - j,
                {
                    append_chars(&mut out, &grp.name);
                    append_chars(&mut out, &grp.lines[j]);
                    proof {
                        let name = self.models()[i as int].0;
                        let lines = self.models()[i as int].2;
                        assert(lines.take(j + 1) =~= lines.take(j as int) + seq![lines[j as int]]);
                        lemma_render_lines_app(name, lines.take(j as int), seq![lines[j as int]]);
                        assert(seq![lines[j as int]].skip(1) =~= Seq::<Seq<char>>::empty());
                        assert(render_lines(name, Seq::<Seq<char>>::empty())
                            == Seq::<char>::empty());
                        assert(render_lines(name, seq![lines[j as int]]) =~= name + lines[j as int]);
                        assert(grp.lines@[j as int]@ =~= lines[j as int]);
                    }
                    j += 1;
                }
                proof {
                    let g = self.models()[i as int];
                    assert(g.2.take(m as int) =~= g.2);
                    assert(render_group(g) == g.1 + render_lines(g.0, g.2));
                    assert(ms.take(i + 1) =~= ms.take(i as int) + seq![g]);
                    lemma_render_models_app(ms.take(i as int), seq![g]);
                    assert(seq![g].skip(1) =~= Seq::<GroupModel>::empty());
                    assert(render_models(Seq::<GroupModel>::empty()) == Seq::<char>::empty());
                    assert(render_models(seq![g]) =~= render_group(g));
                    assert(out@ =~= render_models(ms.take(i + 1)));
                }
            } else {
                proof {
                    let g = self.models()[i as int];
                    assert(g.2.len() == 0);
                    assert(render_group(g) =~= Seq::<char>::empty());
                    assert(ms.take(i + 1) =~= ms.take(i as int) + seq![g]);
                    lemma_render_models_app(ms.take(i as int), seq![g]);
                    assert(seq![g].skip(1) =~= Seq::<GroupModel>::empty());
                    assert(render_models(Seq::<GroupModel>::empty()) == Seq::<char>::empty());
                    assert(render_models(seq![g]) =~= render_group(g));
                    assert(out@ =~= render_models(ms.take(i + 1)));
                }
            }
            i += 1;
        }
        proof {
            assert(self.models().take(n as int) =~= self.models());
        }
        crate::strings::chars_to_string(&out)
    }
}

/// Appends `help` with newlines replaced by spaces.
fn push_sanitized(out: &mut Vec<char>, help: &str)
    ensures
        final(out)@ == old(out)@ + sanitize_help(help@),
{
    let n = help.unicode_len();
    let mut i: usize = 0;
    while i < n
        invariant
            n == help@.len(),
            0 <= i <= n,
            out@ == old(out)@ + sanitize_help(help@.take(i as int)),
        decreases n - i,
    {
        let c = help.get_char(i);
        if c == '\n' {
            out.push(' ');
        } else {
            out.push(c);
        }
        proof {
            assert(sanitize_help(help@.take(i + 1)) =~= sanitize_help(help@.take(i as int)).push(
                if help@[i as int] == '\n' {
                    ' '
                } else {
                    help@[i as int]
                },
            ));
        }
        i += 1;
    }
    proof {
        assert(help@.take(n as int) =~= help@);
    }
}

} // verus!

//! Prometheus identifier validation, validated name types, name stacks,
//! and label-value escaping.

use vstd::prelude::*;

verus! {

/// A character allowed in a Prometheus metric or label name.
pub open spec fn is_name_char(c: char) -> bool {
    ('a' <= c && c <= 'z') || c == '_'
}

/// All characters of `s` are legal name characters.
pub open spec fn valid_name(s: Seq<char>) -> bool {
    forall|i: int| 0 <= i < s.len() ==> is_name_char(#[trigger] s[i])
}

/// Whether `name` consists only of the characters `a` to `z` and `_`.
pub fn is_valid_prometheus_name(name: &str) -> (r: bool)
    ensures
        r == valid_name(name@),
{
    let n = name.unicode_len();
    let mut i: usize = 0;
    while i < n
        invariant
            n == name@.len(),
            0 <= i <= n,
            forall|j: int| 0 <= j < i ==> is_name_char(#[trigger] name@[j]),
        decreases n - i,
    {
        let c = name.get_char(i);
        if !(('a' <= c && c <= 'z') || c == '_') {
            return false;
        }
        i += 1;
    }
    true
}

/// Error returned when a string holds characters outside `[a-z_]`.
#[derive(Clone, Copy, Debug, PartialEq, Eq, Structural)]
pub struct InvalidPrometheusNameError;

/// Copies the characters of `src` onto the end of `dst`.
pub(crate) fn append_chars(dst: &mut Vec<char>, src: &Vec<char>)
    ensures
        final(dst)@ == old(dst)@ + src@,
{
    let n = src.len();
    let mut i: usize = 0;
    while i < n
        invariant
            n == src@.len(),
            0 <= i <= n,
            dst@ == old(dst)@ + src@.take(i as int),
        decreases n - i,
    {
        dst.push(src[i]);
        proof {
            assert(src@.take(i + 1) == src@.take(i as int).push(src@[i as int]));
        }
        i += 1;
    }
    proof {
        assert(src@.take(n as int) == src@);
    }
}

/// Copies the characters of `src` into a fresh vector.
pub(crate) fn copy_chars(src: &Vec<char>) -> (r: Vec<char>)
    ensures
        r@ == src@,
{
    let mut out: Vec<char> = Vec::new();
    append_chars(&mut out, src);
    out
}

/// Collects the characters of `s` into a vector.
pub(crate) fn str_to_chars(s: &str) -> (r: Vec<char>)
    ensures
        r@ == s@,
{
    let n = s.unicode_len();
    let mut out: Vec<char> = Vec::new();
    let mut i: usize = 0;
    while i < n
        invariant
            n == s@.len(),
            0 <= i <= n,
            out@ == s@.take(i as int),
        decreases n - i,
    {
        out.push(s.get_char(i));
        proof {
            assert(s@.take(i + 1) == s@.take(i as int).push(s@[i as int]));
        }
        i += 1;
    }
    proof {
        assert(s@.take(n as int) == s@);
    }
    out
}

/// Appends the characters of `s` to `dst`.
pub(crate) fn append_str(dst: &mut Vec<char>, s: &str)
    ensures
        final(dst)@ == old(dst)@ + s@,
{
    let chars = str_to_chars(s);
    append_chars(dst, &chars);
}

/// Whether two character vectors hold the same text.
pub(crate) fn vec_char_eq(a: &Vec<char>, b: &Vec<char>) -> (r: bool)
    ensures
        r == (a@ == b@),
{
    if a.len() != b.len() {
        return false;
    }
    let n = a.len();
    let mut i: usize = 0;
    while i < n
        invariant
            n == a@.len() == b@.len(),
            0 <= i <= n,
            forall|j: int| 0 <= j < i ==> a@[j] == b@[j],
        decreases n - i,
    {
        if a[i] != b[i] {
            return false;
        }
        i += 1;
    }
    proof {
        assert(a@ =~= b@);
    }
    true
}

/// Relies on `String::from_iter` over `char`: the returned string holds
/// exactly the characters of `v`, in order.
#[verifier::external_body]
pub(crate) fn chars_to_string(v: &Vec<char>) -> (r: String)
    ensures
        r@ == v@,
{
    v.iter().collect()
}

/// A validated Prometheus identifier: a string of characters from `[a-z_]`.
pub struct PName {
    chars: Vec<char>,
}

impl View for PName {
    type V = Seq<char>;

    closed spec fn view(&self) -> Seq<char> {
        self.chars@
    }
}

impl PName {
    /// Every `PName` in existence holds only name characters.
    #[verifier::type_invariant]
    spec fn inv(self) -> bool {
        valid_name(self@)
    }

    /// Builds a name after checking it: one or more characters, each from
    /// `[a-z_]`. The empty string is refused, so every accepted name matches
    /// `[a-z_]+`.
    pub fn new(name: &str) -> (r: Result<PName, InvalidPrometheusNameError>)
        ensures
            r is Ok <==> (name@.len() > 0 && valid_name(name@)),
            r is Ok ==> r->Ok_0@ == name@,
    {
        if name.unicode_len() > 0 && is_valid_prometheus_name(name) {
            Ok(PName { chars: str_to_chars(name) })
        } else {
            Err(InvalidPrometheusNameError)
        }
    }

    /// Builds a name from a string already known to be valid.
    pub fn new_unchecked(name: &str) -> (r: PName)
        requires
            valid_name(name@),
        ensures
            r@ == name@,
    {
        PName { chars: str_to_chars(name) }
    }

    /// The characters of the name; always a valid name.
    pub(crate) fn as_chars(&self) -> (r: &Vec<char>)
        ensures
            r@ == self@,
            valid_name(self@),
    {
        proof {
            use_type_invariant(&*self);
        }
        &self.chars
    }

    /// The name as an owned string; always a valid name.
    pub fn to_name_string(&self) -> (r: String)
        ensures
            r@ == self@,
            valid_name(self@),
    {
        proof {
            use_type_invariant(&*self);
        }
        chars_to_string(&self.chars)
    }
}

/// An owned concatenation of validated names.
pub struct PNameBuf {
    chars: Vec<char>,
}

impl View for PNameBuf {
    type V = Seq<char>;

    closed spec fn view(&self) -> Seq<char> {
        self.chars@
    }
}

impl PNameBuf {
    /// Concatenations of valid names stay valid; every constructor
    /// establishes this and every method preserves it.
    pub open spec fn wf(&self) -> bool {
        valid_name(self@)
    }

    /// An empty name buffer.
    pub fn new() -> (r: PNameBuf)
        ensures
            r@ == Seq::<char>::empty(),
            r.wf(),
    {
        PNameBuf { chars: Vec::new() }
    }

    /// Appends a validated name.
    pub fn push_name(&mut self, name: &PName)
        requires
            old(self).wf(),
        ensures
            final(self)@ == old(self)@ + name@,
            final(self).wf(),
    {
        proof {
            use_type_invariant(name);
        }
        append_chars(&mut self.chars, name.as_chars());
    }

    /// Removes every character.
    pub fn clear(&mut self)
        ensures
            final(self)@ == Seq::<char>::empty(),
            final(self).wf(),
    {
        self.chars.clear();
    }

    /// Shortens the buffer to `new_len` characters; longer requests leave it
    /// unchanged.
    pub fn truncate(&mut self, new_len: usize)
        requires
            old(self).wf(),
        ensures
            new_len <= old(self)@.len() ==> final(self)@ == old(self)@.take(new_len as int),
            new_len > old(self)@.len() ==> final(self)@ == old(self)@,
            final(self).wf(),
    {
        self.chars.truncate(new_len);
    }

    /// The number of characters held.
    pub fn name_len(&self) -> (r: usize)
        ensures
            r == self@.len(),
    {
        self.chars.len()
    }

    /// The characters of the concatenated name.
    pub(crate) fn as_chars(&self) -> (r: &Vec<char>)
        ensures
            r@ == self@,
    {
        &self.chars
    }

    /// The concatenation as an owned string.
    pub fn to_name_string(&self) -> (r: String)
        ensures
            r@ == self@,
    {
        chars_to_string(&self.chars)
    }
}

/// The text after `push` records a mark at the old length and appends the
/// pushed name.
pub open spec fn stack_push(text: Seq<char>, marks: Seq<usize>, pushed: Seq<char>) -> (Seq<char>, Seq<usize>) {
    (text + pushed, marks.push(text.len() as usize))
}

/// The text after `pop` is truncated back to the most recent mark; popping an
/// empty stack changes nothing.
pub open spec fn stack_pop(text: Seq<char>, marks: Seq<usize>) -> (Seq<char>, Seq<usize>) {
    if marks.len() == 0 {
        (text, marks)
    } else {
        (text.take(marks.last() as int), marks.drop_last())
    }
}

/// Popping right after a push restores the stack exactly: push/pop pairs are
/// balanced, whatever was pushed.
pub proof fn lemma_stack_push_pop(text: Seq<char>, marks: Seq<usize>, pushed: Seq<char>)
    requires
        text.len() <= usize::MAX,
    ensures
        stack_pop(stack_push(text, marks, pushed).0, stack_push(text, marks, pushed).1) == (text, marks),
{
    let (text2, marks2) = stack_push(text, marks, pushed);
    assert(marks2.last() == text.len());
    assert(text2.take(text.len() as int) == text);
    assert(marks2.drop_last() == marks);
}

/// A stack of name components concatenated into one fully-qualified name,
/// with marks recording each component's start for O(1) unwinding.
pub struct PNameBuilder {
    buf: PNameBuf,
    waypoints: Vec<usize>,
}

impl PNameBuilder {
    /// The concatenated name text.
    pub closed spec fn text(&self) -> Seq<char> {
        self.buf@
    }

    /// The recorded component starts.
    pub closed spec fn marks(&self) -> Seq<usize> {
        self.waypoints@
    }

    /// The text is a valid name and no mark points past it; every
    /// constructor establishes this and every method preserves it.
    pub open spec fn wf(&self) -> bool {
        &&& valid_name(self.text())
        &&& forall|i: int| 0 <= i < self.marks().len() ==> #[trigger] self.marks()[i] <= self.text().len()
        &&& forall|i: int, j: int|
            0 <= i <= j < self.marks().len() ==> #[trigger] self.marks()[i] <= #[trigger] self.marks()[j]
    }

    /// An empty name stack.
    pub fn new() -> (r: PNameBuilder)
        ensures
            r.text() == Seq::<char>::empty(),
            r.marks() == Seq::<usize>::empty(),
            r.wf(),
    {
        PNameBuilder { buf: PNameBuf::new(), waypoints: Vec::new() }
    }

    /// Pushes one name component.
    pub fn push(&mut self, name: &PName)
        requires
            old(self).wf(),
        ensures
            (final(self).text(), final(self).marks()) == stack_push(old(self).text(), old(self).marks(), name@),
            final(self).wf(),
            old(self).text().len() <= usize::MAX,
    {
        self.waypoints.push(self.buf.name_len());
        self.buf.push_name(name);
    }

    /// Unwinds the most recent push; reports whether there was one.
    pub fn pop(&mut self) -> (r: bool)
        requires
            old(self).wf(),
        ensures
            (final(self).text(), final(self).marks()) == stack_pop(old(self).text(), old(self).marks()),
            r == (old(self).marks().len() != 0),
            final(self).wf(),
    {
        match self.waypoints.pop() {
            Some(len) => {
                self.buf.truncate(len);
                true
            },
            None => false,
        }
    }

    /// Empties the stack.
    pub fn clear(&mut self)
        ensures
            final(self).text() == Seq::<char>::empty(),
            final(self).marks() == Seq::<usize>::empty(),
            final(self).wf(),
    {
        self.buf.clear();
        self.waypoints.clear();
    }

    /// Whether the concatenated name is empty.
    pub fn is_empty(&self) -> (r: bool)
        ensures
            r == (self.text().len() == 0),
    {
        self.buf.name_len() == 0
    }

    /// The current fully-qualified name.
    pub(crate) fn as_chars(&self) -> (r: &Vec<char>)
        ensures
            r@ == self.text(),
    {
        self.buf.as_chars()
    }

    /// The current fully-qualified name as an owned string.
    pub fn to_name_string(&self) -> (r: String)
        ensures
            r@ == self.text(),
    {
        self.buf.to_name_string()
    }
}

/// How one character is escaped in a rendered label value: backslash,
/// double quote and newline gain a backslash escape, all else passes through.
pub open spec fn escaped_char(c: char) -> Seq<char> {
    if c == '\\' {
        seq!['\\', '\\']
    } else if c == '"' {
        seq!['\\', '"']
    } else if c == '\n' {
        seq!['\\', 'n']
    } else {
        seq![c]
    }
}

/// The escaped form of a whole string.
pub open spec fn escape_seq(s: Seq<char>) -> Seq<char>
    decreases s.len(),
{
    if s.len() == 0 {
        Seq::<char>::empty()
    } else {
        escaped_char(s[0]) + escape_seq(s.skip(1))
    }
}

/// Escaping distributes over concatenation.
pub proof fn lemma_escape_seq_app(a: Seq<char>, b: Seq<char>)
    ensures
        escape_seq(a + b) == escape_seq(a) + escape_seq(b),
    decreases a.len(),
{
    if a.len() == 0 {
        assert(a + b == b);
        assert(escape_seq(a) == Seq::<char>::empty());
        assert(escape_seq(a) + escape_seq(b) == escape_seq(b));
    } else {
        assert((a + b).skip(1) == a.skip(1) + b);
        lemma_escape_seq_app(a.skip(1), b);
        assert(escape_seq(a + b) == escaped_char(a[0]) + (escape_seq(a.skip(1)) + escape_seq(b)));
        assert(escaped_char(a[0]) + (escape_seq(a.skip(1)) + escape_seq(b)) == (escaped_char(a[0])
            + escape_seq(a.skip(1))) + escape_seq(b));
    }
}

/// Appends the escaped form of `value` to `out`.
pub(crate) fn escape_chars_into(out: &mut Vec<char>, value: &str)
    ensures
        final(out)@ == old(out)@ + escape_seq(value@),
{
    let n = value.unicode_len();
    let mut i: usize = 0;
    while i < n
        invariant
            n == value@.len(),
            0 <= i <= n,
            out@ == old(out)@ + escape_seq(value@.take(i as int)),
        decreases n - i,
    {
        let c = value.get_char(i);
        if c == '\\' {
            out.push('\\');
            out.push('\\');
        } else if c == '"' {
            out.push('\\');
            out.push('"');
        } else if c == '\n' {
            out.push('\\');
            out.push('n');
        } else {
            out.push(c);
        }
        proof {
            let s = value@;
            let single = seq![s[i as int]];
            assert(s.take(i + 1) =~= s.take(i as int) + single);
            lemma_escape_seq_app(s.take(i as int), single);
            assert(single.skip(1) =~= Seq::<char>::empty());
            assert(escape_seq(single) == escaped_char(single[0]) + escape_seq(single.skip(1)));
            assert(escaped_char(s[i as int]) + Seq::<char>::empty() =~= escaped_char(s[i as int]));
        }
        i += 1;
    }
    proof {
        assert(value@.take(n as int) == value@);
    }
}

/// The label-value escaped form of `s`: `\` becomes `\\`, `"` becomes `\"`,
/// and a newline becomes the two characters `\n`.
pub fn escape_prometheus_str(s: &str) -> (r: String)
    ensures
        r@ == escape_seq(s@),
{
    let mut out: Vec<char> = Vec::new();
    escape_chars_into(&mut out, s);
    chars_to_string(&out)
}

/// The inverse reading of an escaped string: `None` where the text is not a
/// possible escape output.
pub open spec fn unescape_seq(s: Seq<char>) -> Option<Seq<char>>
    decreases s.len(),
{
    if s.len() == 0 {
        Some(Seq::<char>::empty())
    } else if s[0] == '\\' {
        if s.len() >= 2 {
            let first = if s[1] == '\\' {
                Some('\\')
            } else if s[1] == '"' {
                Some('"')
            } else if s[1] == 'n' {
                Some('\n')
            } else {
                None
            };
            match first {
                Some(c) => match unescape_seq(s.skip(2)) {
                    Some(rest) => Some(seq![c] + rest),
                    None => None,
                },
                None => None,
            }
        } else {
            None
        }
    } else {
        match unescape_seq(s.skip(1)) {
            Some(rest) => Some(seq![s[0]] + rest),
            None => None,
        }
    }
}

/// Label escaping is reversible: un-escaping the escaped form of any string
/// yields the string itself.
pub proof fn lemma_unescape_escape(s: Seq<char>)
    ensures
        unescape_seq(escape_seq(s)) == Some(s),
    decreases s.len(),
{
    if s.len() == 0 {
    } else {
        lemma_unescape_escape(s.skip(1));
        let e = escape_seq(s);
        let c = s[0];
        assert(e == escaped_char(c) + escape_seq(s.skip(1)));
        if c == '\\' || c == '"' || c == '\n' {
            assert(e.len() >= 2);
            assert(e[0] == '\\');
            assert(e.skip(2) == escape_seq(s.skip(1)));
            assert(seq![c] + s.skip(1) == s);
        } else {
            assert(e[0] == c);
            assert(e.skip(1) == escape_seq(s.skip(1)));
            assert(seq![c] + s.skip(1) == s);
        }
    }
}

} // verus!

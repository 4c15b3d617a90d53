//! Filesystem operations recognised in the evaluator's log messages.
use vstd::prelude::*;

use crate::log::NixInternalLog;

verus! {

/// A sum-type of filesystem operations that we can extract from the Nix logs.
#[derive(Clone, Debug)]
pub enum Op {
    /// Copied a file to the Nix store.
    CopiedSource { source: String, target: String },
    /// Evaluated a Nix file.
    EvaluatedFile { source: String },
    /// Read a file's contents with `builtins.readFile`.
    ReadFile { source: String },
    /// Used a tracked devenv string path.
    TrackedPath { source: String },
}

/// The mathematical value of an [`Op`]: its variant and its paths as text.
pub ghost enum OpModel {
    CopiedSource { source: Seq<char>, target: Seq<char> },
    EvaluatedFile { source: Seq<char> },
    ReadFile { source: Seq<char> },
    TrackedPath { source: Seq<char> },
}

impl View for Op {
    type V = OpModel;

    open spec fn view(&self) -> OpModel {
        match self {
            Op::CopiedSource { source, target } => OpModel::CopiedSource {
                source: source@,
                target: target@,
            },
            Op::EvaluatedFile { source } => OpModel::EvaluatedFile { source: source@ },
            Op::ReadFile { source } => OpModel::ReadFile { source: source@ },
            Op::TrackedPath { source } => OpModel::TrackedPath { source: source@ },
        }
    }
}

impl PartialEq for Op {
    fn eq(&self, o: &Op) -> (r: bool) {
        match (self, o) {
            (Op::CopiedSource { source: a, target: b }, Op::CopiedSource { source: c, target: d }) => {
                *a == *c && *b == *d
            },
            (Op::EvaluatedFile { source: a }, Op::EvaluatedFile { source: c }) => *a == *c,
            (Op::ReadFile { source: a }, Op::ReadFile { source: c }) => *a == *c,
            (Op::TrackedPath { source: a }, Op::TrackedPath { source: c }) => *a == *c,
            _ => false,
        }
    }
}

impl vstd::std_specs::cmp::PartialEqSpecImpl for Op {
    open spec fn obeys_eq_spec() -> bool {
        true
    }

    open spec fn eq_spec(&self, o: &Op) -> bool {
        self@ == o@
    }
}

/// The path whose content decides whether an operation is still current.
pub open spec fn tracked_source(o: OpModel) -> Seq<char> {
    match o {
        OpModel::CopiedSource { source, .. } => source,
        OpModel::EvaluatedFile { source } => source,
        OpModel::ReadFile { source } => source,
        OpModel::TrackedPath { source } => source,
    }
}

pub open spec fn copied_prefix() -> Seq<char> {
    "copied source '"@
}

pub open spec fn arrow() -> Seq<char> {
    "' -> '"@
}

pub open spec fn evaluating_prefix() -> Seq<char> {
    "evaluating file '"@
}

pub open spec fn read_file_prefix() -> Seq<char> {
    "trace: devenv readFile: '"@
}

pub open spec fn tracked_path_prefix() -> Seq<char> {
    "trace: devenv path: '"@
}

pub open spec fn closing_quote() -> Seq<char> {
    "'"@
}

/// The file that stands for a directory that is evaluated.
pub open spec fn default_entry() -> Seq<char> {
    "default.nix"@
}

/// No character of `s` ends a line: a captured path never spans lines.
pub open spec fn single_line(s: Seq<char>) -> bool {
    forall|i: int| 0 <= i < s.len() ==> s[i] != '\n'
}

/// The text between `prefix` and a closing quote that ends `m`, when `m` is a
/// single line of exactly that shape.
pub open spec fn quoted_after(m: Seq<char>, prefix: Seq<char>) -> Option<Seq<char>> {
    if single_line(m) && prefix.len() + 1 <= m.len() && m.subrange(0, prefix.len() as int)
        == prefix && m.last() == '\'' {
        Some(m.subrange(prefix.len() as int, m.len() - 1))
    } else {
        None
    }
}

/// The separator between source and target stands at `k` in `b`.
pub open spec fn arrow_at(b: Seq<char>, k: int) -> bool {
    0 <= k && k + arrow().len() <= b.len() && b.subrange(k, k + arrow().len()) == arrow()
}

/// The last position at or below `k` where the separator stands.
pub open spec fn last_arrow_from(b: Seq<char>, k: int) -> Option<int>
    decreases k + 1,
{
    if k < 0 {
        None
    } else if arrow_at(b, k) {
        Some(k)
    } else {
        last_arrow_from(b, k - 1)
    }
}

proof fn lemma_last_arrow_from_found(b: Seq<char>, j: int)
    ensures
        last_arrow_from(b, j) matches Some(k) ==> arrow_at(b, k) && k <= j,
    decreases j + 1,
{
    if j >= 0 && !arrow_at(b, j) {
        lemma_last_arrow_from_found(b, j - 1);
    }
}

/// Where a copy message splits into source and target: at the last separator,
/// so the source takes as much as it can.
pub open spec fn last_arrow(b: Seq<char>) -> Option<int> {
    last_arrow_from(b, b.len() - arrow().len())
}

/// Source and target of a copy message.
pub open spec fn copied_parts(m: Seq<char>) -> Option<(Seq<char>, Seq<char>)> {
    match quoted_after(m, copied_prefix()) {
        Some(b) => match last_arrow(b) {
            Some(k) => Some((b.subrange(0, k), b.subrange(k + arrow().len(), b.len() as int))),
            None => None,
        },
        None => None,
    }
}

/// The operation a message reports, the shapes tried in a fixed order: a copy,
/// an evaluated file, a file read, a tracked path.
pub open spec fn message_op(m: Seq<char>) -> Option<OpModel> {
    match copied_parts(m) {
        Some(p) => Some(OpModel::CopiedSource { source: p.0, target: p.1 }),
        None => match quoted_after(m, evaluating_prefix()) {
            Some(s) => Some(OpModel::EvaluatedFile { source: s }),
            None => match quoted_after(m, read_file_prefix()) {
                Some(s) => Some(OpModel::ReadFile { source: s }),
                None => match quoted_after(m, tracked_path_prefix()) {
                    Some(s) => Some(OpModel::TrackedPath { source: s }),
                    None => None,
                },
            },
        },
    }
}

/// The operation a log record reports, before a directory is resolved.
pub open spec fn log_op(l: NixInternalLog) -> Option<OpModel> {
    match l {
        NixInternalLog::Msg { msg, .. } => message_op(msg@),
        _ => None,
    }
}

/// `p` with the default entry file pushed onto it as one more component.
pub open spec fn join_default(p: Seq<char>) -> Seq<char> {
    if p.len() == 0 || p.last() == '/' {
        p + default_entry()
    } else {
        p + seq!['/'] + default_entry()
    }
}

/// The operation once the source of an evaluated file is known to be a
/// directory (or not).
pub open spec fn resolved(o: OpModel, source_is_dir: bool) -> OpModel {
    match o {
        OpModel::EvaluatedFile { source } => if source_is_dir {
            OpModel::EvaluatedFile { source: join_default(source) }
        } else {
            o
        },
        _ => o,
    }
}

/// The message that reports `o`.
pub open spec fn render(o: OpModel) -> Seq<char> {
    match o {
        OpModel::CopiedSource { source, target } => copied_prefix() + source + arrow() + target
            + closing_quote(),
        OpModel::EvaluatedFile { source } => evaluating_prefix() + source + closing_quote(),
        OpModel::ReadFile { source } => read_file_prefix() + source + closing_quote(),
        OpModel::TrackedPath { source } => tracked_path_prefix() + source + closing_quote(),
    }
}

/// No separator starts inside `arrow() + t` past its first character: a
/// target that cannot pull the split of a copy message to the right.
pub open spec fn arrow_free_target(t: Seq<char>) -> bool {
    forall|k: int| 0 < k ==> !arrow_at(#[trigger] (arrow() + t), k)
}

/// The paths of `o` can be written into its message and read back: each is a
/// single line, and the target of a copy starts no later separator.
pub open spec fn renderable(o: OpModel) -> bool {
    match o {
        OpModel::CopiedSource { source, target } => single_line(source) && single_line(target)
            && arrow_free_target(target),
        OpModel::EvaluatedFile { source } => single_line(source),
        OpModel::ReadFile { source } => single_line(source),
        OpModel::TrackedPath { source } => single_line(source),
    }
}

proof fn lemma_prefix_texts()
    ensures
        copied_prefix().len() == 15,
        arrow().len() == 6,
        evaluating_prefix().len() == 17,
        read_file_prefix().len() == 25,
        tracked_path_prefix().len() == 21,
        closing_quote() == seq!['\''],
        single_line(copied_prefix()),
        single_line(arrow()),
        single_line(evaluating_prefix()),
        single_line(read_file_prefix()),
        single_line(tracked_path_prefix()),
        copied_prefix()[0] == 'c',
        evaluating_prefix()[0] == 'e',
        read_file_prefix()[0] == 't',
        tracked_path_prefix()[0] == 't',
        read_file_prefix()[14] == 'r',
        tracked_path_prefix()[14] == 'p',
        arrow()[0] == '\'',
        arrow()[5] == '\'',
{
    reveal_strlit("copied source '");
    reveal_strlit("' -> '");
    reveal_strlit("evaluating file '");
    reveal_strlit("trace: devenv readFile: '");
    reveal_strlit("trace: devenv path: '");
    reveal_strlit("'");
    assert(closing_quote() =~= seq!['\'']);
}

/// `prefix + s + "'"` is a message with the quoted text `s`.
proof fn lemma_quoted_after_rendered(prefix: Seq<char>, s: Seq<char>)
    requires
        single_line(prefix),
        single_line(s),
    ensures
        quoted_after(prefix + s + closing_quote(), prefix) == Some(s),
{
    lemma_prefix_texts();
    let m = prefix + s + closing_quote();
    assert(m.subrange(0, prefix.len() as int) =~= prefix);
    assert(m.subrange(prefix.len() as int, m.len() - 1) =~= s);
    assert forall|i: int| 0 <= i < m.len() implies m[i] != '\n' by {
        if i < prefix.len() {
            assert(m[i] == prefix[i]);
        } else if i < prefix.len() + s.len() {
            assert(m[i] == s[i - prefix.len()]);
        }
    }
}

/// A message that differs from `prefix` at position `i` does not start with it.
proof fn lemma_not_after(m: Seq<char>, prefix: Seq<char>, i: int)
    requires
        0 <= i < prefix.len(),
        i < m.len(),
        m[i] != prefix[i],
    ensures
        quoted_after(m, prefix) is None,
{
    if prefix.len() <= m.len() {
        assert(m.subrange(0, prefix.len() as int)[i] != prefix[i]);
    }
}

proof fn lemma_last_arrow_from_skip(b: Seq<char>, j: int, at: int)
    requires
        0 <= at <= j,
        arrow_at(b, at),
        forall|k: int| at < k <= j ==> !arrow_at(b, k),
    ensures
        last_arrow_from(b, j) == Some(at),
    decreases j - at,
{
    if j > at {
        lemma_last_arrow_from_skip(b, j - 1, at);
    }
}

/// Every operation whose paths are renderable is read back, variant and paths,
/// from the message that reports it.
pub proof fn lemma_message_round_trip(o: OpModel)
    requires
        renderable(o),
    ensures
        message_op(render(o)) == Some(o),
{
    lemma_prefix_texts();
    let m = render(o);
    match o {
        OpModel::CopiedSource { source, target } => {
            let body = source + arrow() + target;
            assert(single_line(body)) by {
                assert forall|i: int| 0 <= i < body.len() implies body[i] != '\n' by {
                    if i < source.len() {
                        assert(body[i] == source[i]);
                    } else if i < source.len() + 6 {
                        assert(body[i] == arrow()[i - source.len()]);
                    } else {
                        assert(body[i] == target[i - source.len() - 6]);
                    }
                }
            }
            assert(m =~= copied_prefix() + body + closing_quote());
            lemma_quoted_after_rendered(copied_prefix(), body);
            let tail = arrow() + target;
            assert(body =~= source + tail);
            assert(arrow_at(body, source.len() as int)) by {
                assert(body.subrange(source.len() as int, source.len() + 6int) =~= arrow());
            }
            assert forall|k: int| source.len() < k <= body.len() - 6 implies !arrow_at(body, k) by {
                assert(!arrow_at(tail, k - source.len()));
                assert(body.subrange(k, k + 6) =~= tail.subrange(
                    k - source.len(),
                    k - source.len() + 6,
                ));
            }
            lemma_last_arrow_from_skip(body, body.len() - 6, source.len() as int);
            assert(body.subrange(0, source.len() as int) =~= source);
            assert(body.subrange(source.len() + 6int, body.len() as int) =~= target);
        },
        OpModel::EvaluatedFile { source } => {
            lemma_not_after(m, copied_prefix(), 0);
            lemma_quoted_after_rendered(evaluating_prefix(), source);
        },
        OpModel::ReadFile { source } => {
            lemma_not_after(m, copied_prefix(), 0);
            lemma_not_after(m, evaluating_prefix(), 0);
            lemma_quoted_after_rendered(read_file_prefix(), source);
        },
        OpModel::TrackedPath { source } => {
            lemma_not_after(m, copied_prefix(), 0);
            lemma_not_after(m, evaluating_prefix(), 0);
            lemma_not_after(m, read_file_prefix(), 14);
            lemma_quoted_after_rendered(tracked_path_prefix(), source);
        },
    }
}

/// A message that starts with none of the four shapes, or that runs over more
/// than one line, reports no operation.
pub proof fn lemma_unrecognized_message(m: Seq<char>)
    requires
        !single_line(m) || (!copied_prefix().is_prefix_of(m) && !evaluating_prefix().is_prefix_of(m)
            && !read_file_prefix().is_prefix_of(m) && !tracked_path_prefix().is_prefix_of(m)),
    ensures
        message_op(m) is None,
{
}

/// The characters of `s`, one by one.
fn chars_of(s: &str) -> (r: Vec<char>)
    ensures
        r@ == s@,
{
    let n = s.unicode_len();
    let mut r: Vec<char> = Vec::new();
    let mut i: usize = 0;
    while i < n
        invariant
            n == s@.len(),
            i <= n,
            r@ == s@.subrange(0, i as int),
        decreases n - i,
    {
        r.push(s.get_char(i));
        i = i + 1;
        assert(r@ =~= s@.subrange(0, i as int));
    }
    assert(r@ =~= s@);
    r
}

fn is_single_line(m: &Vec<char>) -> (r: bool)
    ensures
        r == single_line(m@),
{
    let mut i: usize = 0;
    while i < m.len()
        invariant
            i <= m.len(),
            forall|j: int| 0 <= j < i ==> m@[j] != '\n',
        decreases m.len() - i,
    {
        if m[i] == '\n' {
            return false;
        }
        i = i + 1;
    }
    true
}

/// `p` stands in `m` at position `at`.
fn occurs_at(m: &Vec<char>, p: &Vec<char>, at: usize) -> (r: bool)
    ensures
        r == (at + p.len() <= m.len() && m@.subrange(at as int, at + p.len()) == p@),
{
    if p.len() > m.len() || at > m.len() - p.len() {
        return false;
    }
    let mut i: usize = 0;
    while i < p.len()
        invariant
            at + p.len() <= m.len(),
            i <= p.len(),
            forall|j: int| 0 <= j < i ==> m@[at + j] == p@[j],
        decreases p.len() - i,
    {
        if m[at + i] != p[i] {
            assert(m@.subrange(at as int, at + p.len())[i as int] != p@[i as int]);
            return false;
        }
        i = i + 1;
    }
    assert(m@.subrange(at as int, at + p.len()) =~= p@);
    true
}

/// Where the quoted text starts, when `m` is `prefix`, some text and a
/// closing quote.
fn quoted_start(m: &Vec<char>, prefix: &Vec<char>, one_line: bool) -> (r: Option<usize>)
    requires
        one_line == single_line(m@),
    ensures
        r is Some <==> quoted_after(m@, prefix@) is Some,
        r is Some ==> r->0 == prefix.len() && r->0 < m.len(),
{
    if one_line && prefix.len() < m.len() && occurs_at(m, prefix, 0) && m[m.len() - 1] == '\'' {
        Some(prefix.len())
    } else {
        None
    }
}

/// The last separator of `b[from..to]` counted from `from`, as [`last_arrow`]
/// finds it there.
fn find_last_arrow(m: &Vec<char>, sep: &Vec<char>, from: usize, to: usize) -> (r: Option<usize>)
    requires
        sep@ == arrow(),
        from <= to <= m.len(),
    ensures
        match last_arrow(m@.subrange(from as int, to as int)) {
            Some(k) => r == Some(k as usize),
            None => r is None,
        },
{
    let ghost b = m@.subrange(from as int, to as int);
    if to - from < sep.len() {
        return None;
    }
    let mut k: usize = to - from - sep.len();
    loop
        invariant
            b == m@.subrange(from as int, to as int),
            sep@ == arrow(),
            from <= to <= m.len(),
            sep.len() <= to - from,
            k <= to - from - sep.len(),
            last_arrow(b) == last_arrow_from(b, k as int),
        decreases k,
    {
        let found = occurs_at(m, sep, from + k);
        assert(found == arrow_at(b, k as int)) by {
            assert(b.subrange(k as int, k + arrow().len()) =~= m@.subrange(
                from + k,
                from + k + sep.len(),
            ));
        }
        if found {
            return Some(k);
        }
        if k == 0 {
            assert(last_arrow_from(b, -1) is None);
            return None;
        }
        k = k - 1;
    }
}

/// A string that holds `s[from..to]`.
fn slice_to_string(s: &String, from: usize, to: usize) -> (r: String)
    requires
        from <= to <= s@.len(),
    ensures
        r@ == s@.subrange(from as int, to as int),
{
    String::from_str(s.as_str().substring_char(from, to))
}

impl Op {
    /// Reads the operation that a message reports, with its paths exactly as
    /// written: a directory is not resolved here.
    pub fn from_message(msg: &String) -> (r: Option<Op>)
        ensures
            match message_op(msg@) {
                Some(o) => r is Some && r->0@ == o,
                None => r is None,
            },
    {
        let m = chars_of(msg.as_str());
        let one_line = is_single_line(&m);
        let copied = chars_of("copied source '");
        if let Some(start) = quoted_start(&m, &copied, one_line) {
            let sep = chars_of("' -> '");
            let end = m.len() - 1;
            if let Some(k) = find_last_arrow(&m, &sep, start, end) {
                let ghost b = msg@.subrange(start as int, end as int);
                proof {
                    lemma_last_arrow_from_found(b, b.len() - arrow().len());
                }
                assert(b.subrange(0, k as int) =~= msg@.subrange(start as int, start + k));
                assert(b.subrange(k + arrow().len(), b.len() as int) =~= msg@.subrange(
                    start + k + sep.len(),
                    end as int,
                ));
                let source = slice_to_string(msg, start, start + k);
                let target = slice_to_string(msg, start + k + sep.len(), end);
                return Some(Op::CopiedSource { source, target });
            }
        }
        let evaluating = chars_of("evaluating file '");
        if let Some(start) = quoted_start(&m, &evaluating, one_line) {
            let source = slice_to_string(msg, start, m.len() - 1);
            return Some(Op::EvaluatedFile { source });
        }
        let read_file = chars_of("trace: devenv readFile: '");
        if let Some(start) = quoted_start(&m, &read_file, one_line) {
            let source = slice_to_string(msg, start, m.len() - 1);
            return Some(Op::ReadFile { source });
        }
        let path_prefix = chars_of("trace: devenv path: '");
        if let Some(start) = quoted_start(&m, &path_prefix, one_line) {
            let source = slice_to_string(msg, start, m.len() - 1);
            return Some(Op::TrackedPath { source });
        }
        None
    }
}

/// `p` with the default entry file pushed onto it.
fn join_default_entry(p: String) -> (r: String)
    ensures
        r@ == join_default(p@),
{
    let n = p.as_str().unicode_len();
    let mut p = p;
    proof {
        reveal_strlit("default.nix");
        reveal_strlit("/default.nix");
    }
    if n == 0 || p.as_str().get_char(n - 1) == '/' {
        p.append("default.nix");
    } else {
        assert("/default.nix"@ =~= seq!['/'] + default_entry());
        p.append("/default.nix");
    }
    p
}

/// Relies on `std::path::Path::is_dir`: whether `path` names a directory on
/// disk at this moment, an error reading as `false`. The disk decides, so
/// nothing is promised of the result.
#[verifier::external_body]
fn is_directory(path: &String) -> (r: bool) {
    std::path::Path::new(path).is_dir()
}

impl Op {
    /// The operation once it is known whether the source of an evaluated file
    /// is a directory: a directory stands for its `default.nix`. Other
    /// operations are returned as they are.
    pub fn resolve_directory(self, source_is_dir: bool) -> (r: Op)
        ensures
            r@ == resolved(self@, source_is_dir),
    {
        match self {
            Op::EvaluatedFile { source } => if source_is_dir {
                Op::EvaluatedFile { source: join_default_entry(source) }
            } else {
                Op::EvaluatedFile { source }
            },
            other => other,
        }
    }

    /// Extract an `Op` from a `NixInternalLog`.
    ///
    /// Only a plain message can report an operation. The source of an evaluated
    /// file is looked up on disk: when it is a directory, its `default.nix` is
    /// recorded instead.
    pub fn from_internal_log(log: &NixInternalLog) -> (r: Option<Op>)
        ensures
            match log_op(*log) {
                Some(o) => r is Some && (r->0@ == resolved(o, false) || r->0@ == resolved(o, true)),
                None => r is None,
            },
    {
        match log {
            NixInternalLog::Msg { msg, .. } => match Op::from_message(msg) {
                Some(op) => {
                    let source_is_dir = match &op {
                        Op::EvaluatedFile { source } => is_directory(source),
                        _ => false,
                    };
                    Some(op.resolve_directory(source_is_dir))
                },
                None => None,
            },
            _ => None,
        }
    }

    /// The log message that reports this operation.
    pub fn to_message(&self) -> (r: String)
        ensures
            r@ == render(self@),
    {
        match self {
            Op::CopiedSource { source, target } => String::from_str("copied source '").concat(
                source.as_str(),
            ).concat("' -> '").concat(target.as_str()).concat("'"),
            Op::EvaluatedFile { source } => String::from_str("evaluating file '").concat(
                source.as_str(),
            ).concat("'"),
            Op::ReadFile { source } => String::from_str("trace: devenv readFile: '").concat(
                source.as_str(),
            ).concat("'"),
            Op::TrackedPath { source } => String::from_str("trace: devenv path: '").concat(
                source.as_str(),
            ).concat("'"),
        }
    }
}

} // verus!

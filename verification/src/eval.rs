//! The evaluator: from the syntax tree to entries.
//!
//! String handling is specified exactly: escape decoding, block-string
//! joining and folding, and the trailing-newline policy each mirror a
//! spec function.  The tree walk composes keys with the current prefix,
//! interns texts into the arena, and appends entries in source order.

use vstd::prelude::*;

use crate::config::{entries_wf, raw_model, raw_wf, ValueModel, ValueRaw};
use crate::cst::{CstElement, CstNode};
use crate::error::{ConfigError, ConfigErrorModel};
use crate::syntax::{SyntaxKind, TextRange};
use crate::text::{byte_len, char_utf8_len, lemma_byte_len_bounds, lemma_byte_len_concat, str_chars, utf8_len};
use crate::text_arena::{TextArena, TextId};

verus! {

/// What a recognized escape decodes to.
pub open spec fn esc_map(c: char) -> Option<char> {
    if c == '"' {
        Some('"')
    } else if c == '\'' {
        Some('\'')
    } else if c == '\\' {
        Some('\\')
    } else if c == 'n' {
        Some('\n')
    } else if c == 'r' {
        Some('\r')
    } else if c == 't' {
        Some('\t')
    } else {
        None
    }
}

/// The decoded text: recognized escapes are replaced, an unrecognized
/// `\X` decodes to `X`, and a trailing lone backslash contributes
/// nothing.
pub open spec fn unescaped_text(s: Seq<char>) -> Seq<char>
    decreases s.len(),
{
    if s.len() == 0 {
        Seq::empty()
    } else if s[0] != '\\' {
        seq![s[0]] + unescaped_text(s.drop_first())
    } else if s.len() == 1 {
        Seq::empty()
    } else {
        match esc_map(s[1]) {
            Some(r) => seq![r] + unescaped_text(s.skip(2)),
            None => seq![s[1]] + unescaped_text(s.skip(2)),
        }
    }
}

/// The escape errors of a body that starts at byte offset `off`: each
/// unrecognized pair `\X` with its byte range, and a trailing lone
/// backslash with a one-byte range.
pub open spec fn escape_errors(s: Seq<char>, off: int) -> Seq<ConfigErrorModel>
    decreases s.len(),
{
    if s.len() == 0 {
        Seq::empty()
    } else if s[0] != '\\' {
        escape_errors(s.drop_first(), off + utf8_len(s[0]))
    } else if s.len() == 1 {
        seq![ConfigErrorModel::InvalidEscape { start: off, len: 1, sequence: seq!['\\'] }]
    } else {
        match esc_map(s[1]) {
            Some(r) => escape_errors(s.skip(2), off + 2),
            None => seq![
                ConfigErrorModel::InvalidEscape {
                    start: off,
                    len: 1 + utf8_len(s[1]),
                    sequence: seq!['\\', s[1]],
                },
            ] + escape_errors(s.skip(2), off + 1 + utf8_len(s[1])),
        }
    }
}

/// Decodes the escapes of a quoted body, appending the decoded text to
/// `out` and each escape error to `errors`; decoding is best-effort and
/// always runs to the end.
pub fn unescape(text: &[char], base_offset: u32, out: &mut Vec<char>, errors: &mut Vec<
    ConfigError,
>)
    requires
        base_offset + byte_len(text@) <= u32::MAX,
    ensures
        final(out)@ == old(out)@ + unescaped_text(text@),
        final(errors)@.map_values(|e: ConfigError| e@) == old(errors)@.map_values(
            |e: ConfigError| e@,
        ) + escape_errors(text@, base_offset as int),
{
    let ghost s = text@;
    let n = text.len();
    let mut i: usize = 0;
    let mut boff: u32 = base_offset;
    proof {
        assert(s.skip(0) =~= s);
        assert(byte_len(s.take(0)) == 0) by {
            assert(s.take(0) =~= Seq::<char>::empty());
        }
        assert(old(out)@ + unescaped_text(s) =~= old(out)@ + unescaped_text(s.skip(0)));
    }
    while i < n
        invariant
            s == text@,
            n == s.len(),
            i <= n,
            base_offset + byte_len(s) <= u32::MAX,
            boff as int == base_offset + byte_len(s.take(i as int)),
            out@ + unescaped_text(s.skip(i as int)) == old(out)@ + unescaped_text(s),
            errors@.map_values(|e: ConfigError| e@) + escape_errors(s.skip(i as int), boff as int)
                == old(errors)@.map_values(|e: ConfigError| e@) + escape_errors(
                s,
                base_offset as int,
            ),
        decreases n - i,
    {
        proof {
            lemma_unescape_bounds(s, i as int);
        }
        let c = text[i];
        if c != '\\' {
            let ghost out0 = out@;
            out.push(c);
            let w = char_utf8_len(c);
            proof {
                let rem = s.skip(i as int);
                assert(rem[0] == c);
                assert(rem.drop_first() =~= s.skip(i + 1));
                assert(out0 + (seq![c] + unescaped_text(s.skip(i + 1))) =~= (out0 + seq![c])
                    + unescaped_text(s.skip(i + 1)));
                assert(out@ =~= out0 + seq![c]);
                lemma_take_snoc_byte(s, i as int);
                lemma_unescape_bounds(s, i + 1);
            }
            boff = boff + w;
            i = i + 1;
        } else if i + 1 >= n {
            // trailing lone backslash: report it, decode nothing
            let ghost errs0 = errors@;
            let e = ConfigError::InvalidEscape {
                range: TextRange { start: boff, len: 1 },
                sequence: backslash_string(),
            };
            let ghost eg = e;
            errors.push(e);
            proof {
                let rem = s.skip(i as int);
                assert(rem.len() == 1 && rem[0] == '\\');
                assert(unescaped_text(rem) =~= Seq::<char>::empty());
                assert(out@ + Seq::<char>::empty() =~= out@);
                assert(unescaped_text(s.skip(i + 1)) =~= Seq::<char>::empty()) by {
                    assert(s.skip(i + 1) =~= Seq::<char>::empty());
                }
                let e = eg;
                assert(errors@ =~= errs0.push(e));
                assert(errors@.map_values(|e2: ConfigError| e2@) =~= errs0.map_values(
                    |e2: ConfigError| e2@,
                ).push(e@));
                assert(e@ == (ConfigErrorModel::InvalidEscape {
                    start: boff as int,
                    len: 1,
                    sequence: seq!['\\'],
                })) by {
                    crate::text::lemma_char_eq('\\', '\\');
                }
                assert(escape_errors(rem, boff as int) =~= seq![e@]);
                assert(errs0.map_values(|e2: ConfigError| e2@).push(e@) + Seq::<
                    ConfigErrorModel,
                >::empty() =~= errs0.map_values(|e2: ConfigError| e2@) + seq![e@]);
                assert(escape_errors(s.skip(i + 1), boff as int + 1) =~= Seq::<
                    ConfigErrorModel,
                >::empty()) by {
                    assert(s.skip(i + 1) =~= Seq::<char>::empty());
                }
                lemma_take_snoc_byte(s, i as int);
                lemma_unescape_bounds(s, i + 1);
            }
            boff = boff + 1;
            i = i + 1;
        } else {
            let x = text[i + 1];
            let ghost rem = s.skip(i as int);
            proof {
                assert(rem[0] == '\\');
                assert(rem.len() >= 2);
                assert(rem[1] == x);
                assert(rem.skip(2) =~= s.skip(i + 2));
                lemma_take_two_bytes(s, i as int);
                lemma_unescape_bounds(s, i + 2);
            }
            let decoded: char = match x {
                '"' => '"',
                '\'' => '\'',
                '\\' => '\\',
                'n' => '\n',
                'r' => '\r',
                't' => '\t',
                other => other,
            };
            let recognized = x == '"' || x == '\'' || x == '\\' || x == 'n' || x == 'r' || x
                == 't';
            let ghost out0 = out@;
            out.push(decoded);
            proof {
                assert(out@ =~= out0.push(decoded));
                if esc_map(x) is Some {
                    assert(unescaped_text(rem) == seq![esc_map(x)->Some_0] + unescaped_text(
                        s.skip(i + 2),
                    ));
                    assert(decoded == esc_map(x)->Some_0);
                } else {
                    assert(unescaped_text(rem) == seq![x] + unescaped_text(s.skip(i + 2)));
                    assert(decoded == x);
                }
                assert(out0 + (seq![decoded] + unescaped_text(s.skip(i + 2))) =~= (out0 + seq![
                    decoded,
                ]) + unescaped_text(s.skip(i + 2)));
                assert(out0.push(decoded) =~= out0 + seq![decoded]);
            }
            if recognized {
                proof {
                    assert(escape_errors(rem, boff as int) == escape_errors(
                        s.skip(i + 2),
                        boff as int + 2,
                    ));
                    assert(utf8_len(x) == 1);
                }
                boff = boff + 2;
            } else {
                let w = char_utf8_len(x);
                let ghost errs0 = errors@;
                let mut sequence: Vec<char> = Vec::new();
                sequence.push('\\');
                sequence.push(x);
                let e = ConfigError::InvalidEscape {
                    range: TextRange { start: boff, len: 1 + w },
                    sequence: crate::text::chars_to_string(sequence.as_slice()),
                };
                let ghost eg = e;
                errors.push(e);
                proof {
                    assert(errors@ =~= errs0.push(eg));
                    assert(errors@.map_values(|e2: ConfigError| e2@) =~= errs0.map_values(
                        |e2: ConfigError| e2@,
                    ).push(eg@));
                    assert(eg@ == (ConfigErrorModel::InvalidEscape {
                        start: boff as int,
                        len: 1 + utf8_len(x),
                        sequence: seq!['\\', x],
                    })) by {
                        assert(sequence@ =~= seq!['\\', x]);
                    }
                    assert(escape_errors(rem, boff as int) == seq![eg@] + escape_errors(
                        s.skip(i + 2),
                        boff as int + 1 + utf8_len(x),
                    ));
                    assert(errs0.map_values(|e2: ConfigError| e2@).push(eg@) + escape_errors(
                        s.skip(i + 2),
                        boff as int + 1 + utf8_len(x),
                    ) =~= errs0.map_values(|e2: ConfigError| e2@) + (seq![eg@] + escape_errors(
                        s.skip(i + 2),
                        boff as int + 1 + utf8_len(x),
                    )));
                }
                boff = boff + 1 + w;
            }
            i = i + 2;
        }
    }
    proof {
        assert(s.skip(i as int) =~= Seq::<char>::empty());
        assert(unescaped_text(Seq::<char>::empty()) =~= Seq::<char>::empty());
        assert(out@ + Seq::<char>::empty() =~= out@);
        assert(escape_errors(Seq::<char>::empty(), boff as int) =~= Seq::<
            ConfigErrorModel,
        >::empty());
        assert(errors@.map_values(|e: ConfigError| e@) + Seq::<ConfigErrorModel>::empty()
            =~= errors@.map_values(|e: ConfigError| e@));
    }
}

/// A one-character backslash string.
fn backslash_string() -> (r: String)
    ensures
        r@ == seq!['\\'],
{
    let mut v: Vec<char> = Vec::new();
    v.push('\\');
    proof {
        assert(v@ =~= seq!['\\']);
    }
    crate::text::chars_to_string(v.as_slice())
}

/// The text of one block-string line; an empty marker contributes none.
pub open spec fn line_text(o: Option<Seq<char>>) -> Seq<char> {
    match o {
        Some(t) => t,
        None => Seq::empty(),
    }
}

/// The character sequences of a line list.
pub open spec fn line_views(ls: Seq<Option<String>>) -> Seq<Option<Seq<char>>> {
    ls.map_values(
        |o: Option<String>|
            match o {
                Some(s) => Some(s@),
                None => None,
            },
    )
}

/// Literal style: the lines joined with newlines.
pub open spec fn literal_joined(lines: Seq<Option<Seq<char>>>) -> Seq<char>
    decreases lines.len(),
{
    if lines.len() == 0 {
        Seq::empty()
    } else if lines.len() == 1 {
        line_text(lines[0])
    } else {
        literal_joined(lines.drop_last()) + seq!['\n'] + line_text(lines.last())
    }
}

/// Literal style with the final newline appended.
pub open spec fn literal_text(lines: Seq<Option<Seq<char>>>) -> Seq<char> {
    literal_joined(lines) + seq!['\n']
}

/// Folded style: content lines joined by single spaces, empty lines
/// becoming newlines, with a final newline.
pub open spec fn folded_from(lines: Seq<Option<Seq<char>>>, prev_content: bool) -> Seq<char>
    decreases lines.len(),
{
    if lines.len() == 0 {
        seq!['\n']
    } else {
        match lines[0] {
            Some(t) => (if prev_content {
                seq![' ']
            } else {
                Seq::empty()
            }) + t + folded_from(lines.drop_first(), true),
            None => seq!['\n'] + folded_from(lines.drop_first(), false),
        }
    }
}

pub open spec fn folded_text(lines: Seq<Option<Seq<char>>>) -> Seq<char> {
    folded_from(lines, false)
}

/// The string without its trailing newlines.
pub open spec fn trimmed_newlines(s: Seq<char>) -> Seq<char>
    decreases s.len(),
{
    if s.len() > 0 && s.last() == '\n' {
        trimmed_newlines(s.drop_last())
    } else {
        s
    }
}

/// The trailing-newline policy: `-` strips them all, `+` keeps the text,
/// and the default clips to exactly one.
pub open spec fn chomped(raw: Seq<char>, chomp: Option<SyntaxKind>) -> Seq<char> {
    if chomp == Some(SyntaxKind::MINUS) {
        trimmed_newlines(raw)
    } else if chomp == Some(SyntaxKind::PLUS) {
        raw
    } else {
        trimmed_newlines(raw) + seq!['\n']
    }
}

/// Joins block-string lines in literal style: newlines between lines are
/// preserved as-is, and a final newline is appended.
pub fn literal_lines(lines: &[Option<String>]) -> (r: String)
    ensures
        r@ == literal_text(line_views(lines@)),
{
    let ghost lv = line_views(lines@);
    let mut out: Vec<char> = Vec::new();
    let n = lines.len();
    let mut i: usize = 0;
    while i < n
        invariant
            n == lines@.len(),
            i <= n,
            lv == line_views(lines@),
            out@ == literal_joined(lv.take(i as int)),
        decreases n - i,
    {
        let ghost out0 = out@;
        if i > 0 {
            out.push('\n');
        }
        match &lines[i] {
            Some(text) => {
                let cs = str_chars(text.as_str());
                out.extend_from_slice(cs.as_slice());
            },
            None => {},
        }
        proof {
            assert(lv.take(i + 1).drop_last() =~= lv.take(i as int));
            assert(lv.take(i + 1).last() == lv[i as int]);
            assert(lv[i as int] == line_views(lines@)[i as int]);
            if i == 0 {
                assert(lv.take(1).len() == 1);
                assert(lv.take(1)[0] == lv[0]);
                assert(out@ =~= literal_joined(lv.take(1)));
            } else {
                assert(out@ =~= (literal_joined(lv.take(i as int)) + seq!['\n']) + line_text(
                    lv[i as int],
                ));
                assert(literal_joined(lv.take(i + 1)) =~= (literal_joined(lv.take(i as int))
                    + seq!['\n']) + line_text(lv[i as int]));
            }
        }
        i = i + 1;
    }
    out.push('\n');
    proof {
        assert(lv.take(n as int) =~= lv);
        assert(out@ =~= literal_joined(lv) + seq!['\n']);
    }
    crate::text::chars_to_string(out.as_slice())
}

/// Joins block-string lines in folded style: single newlines between
/// adjacent content lines become spaces, empty lines produce newlines,
/// and a final newline is appended.
pub fn fold_lines(lines: &[Option<String>]) -> (r: String)
    ensures
        r@ == folded_text(line_views(lines@)),
{
    let ghost lv = line_views(lines@);
    let mut out: Vec<char> = Vec::new();
    let n = lines.len();
    let mut i: usize = 0;
    let mut prev_content = false;
    proof {
        assert(lv.skip(0) =~= lv);
        assert(Seq::<char>::empty() + folded_from(lv, false) =~= folded_from(lv, false));
    }
    while i < n
        invariant
            n == lines@.len(),
            i <= n,
            lv == line_views(lines@),
            out@ + folded_from(lv.skip(i as int), prev_content) == folded_text(lv),
        decreases n - i,
    {
        let ghost out0 = out@;
        let ghost rem = lv.skip(i as int);
        proof {
            assert(rem[0] == lv[i as int]);
            assert(rem.drop_first() =~= lv.skip(i + 1));
        }
        match &lines[i] {
            Some(text) => {
                if prev_content {
                    out.push(' ');
                }
                let cs = str_chars(text.as_str());
                out.extend_from_slice(cs.as_slice());
                proof {
                    let sep: Seq<char> = if prev_content {
                        seq![' ']
                    } else {
                        Seq::empty()
                    };
                    assert(out@ =~= out0 + sep + text@);
                    assert(rem[0] == Some(text@));
                    assert(folded_from(rem, prev_content) == sep + text@ + folded_from(
                        lv.skip(i + 1),
                        true,
                    ));
                    assert(out0 + (sep + text@ + folded_from(lv.skip(i + 1), true)) =~= (out0
                        + sep + text@) + folded_from(lv.skip(i + 1), true));
                }
                prev_content = true;
            },
            None => {
                out.push('\n');
                proof {
                    assert(out@ =~= out0 + seq!['\n']);
                    assert(rem[0] is None);
                    assert(folded_from(rem, prev_content) == seq!['\n'] + folded_from(
                        lv.skip(i + 1),
                        false,
                    ));
                    assert(out0 + (seq!['\n'] + folded_from(lv.skip(i + 1), false)) =~= (out0
                        + seq!['\n']) + folded_from(lv.skip(i + 1), false));
                }
                prev_content = false;
            },
        }
        i = i + 1;
    }
    proof {
        assert(lv.skip(n as int) =~= Seq::<Option<Seq<char>>>::empty());
        assert(folded_from(lv.skip(n as int), prev_content) =~= seq!['\n']);
    }
    out.push('\n');
    proof {
        assert(out@ =~= folded_text(lv));
    }
    crate::text::chars_to_string(out.as_slice())
}

/// Trimming equals keeping the prefix before the trailing newline run.
proof fn lemma_trim_take(s: Seq<char>, k: int)
    requires
        0 <= k <= s.len(),
        forall|j: int| k <= j < s.len() ==> s[j] == '\n',
        k == 0 || s[k - 1] != '\n',
    ensures
        trimmed_newlines(s) == s.take(k),
    decreases s.len(),
{
    if s.len() == k {
        assert(s.take(k) =~= s);
    } else {
        assert(s.last() == '\n');
        assert forall|j: int| k <= j < s.drop_last().len() implies s.drop_last()[j] == '\n' by {
            assert(s[j] == '\n');
        }
        if k > 0 {
            assert(s.drop_last()[k - 1] == s[k - 1]);
        }
        lemma_trim_take(s.drop_last(), k);
        assert(s.drop_last().take(k) =~= s.take(k));
    }
}

/// Applies the trailing-newline policy to an assembled block string.
pub fn apply_chomp(raw: &str, chomp: Option<SyntaxKind>) -> (r: String)
    ensures
        r@ == chomped(raw@, chomp),
{
    let cs = str_chars(raw);
    let keep = match chomp {
        Some(SyntaxKind::PLUS) => true,
        _ => false,
    };
    if keep {
        proof {
            assert(chomped(raw@, chomp) == raw@);
        }
        return crate::text::chars_to_string(cs.as_slice());
    }
    // find the trim point
    let mut k = cs.len();
    while k > 0 && cs[k - 1] == '\n'
        invariant
            cs@ == raw@,
            k <= cs@.len(),
            forall|j: int| k <= j < cs@.len() ==> cs@[j] == '\n',
        decreases k,
    {
        k = k - 1;
    }
    proof {
        lemma_trim_take(cs@, k as int);
    }
    let trimmed_slice = &cs.as_slice()[0..k];
    let mut out = vstd::slice::slice_to_vec(trimmed_slice);
    let strip = match chomp {
        Some(SyntaxKind::MINUS) => true,
        _ => false,
    };
    if strip {
        proof {
            assert(out@ =~= trimmed_newlines(raw@));
        }
        crate::text::chars_to_string(out.as_slice())
    } else {
        out.push('\n');
        proof {
            assert(out@ =~= trimmed_newlines(raw@) + seq!['\n']);
        }
        crate::text::chars_to_string(out.as_slice())
    }
}

/// The evaluator's mutable state: the arena, the entries appended so
/// far, the errors met, and the current key prefix.
pub(crate) struct EvalContext {
    pub(crate) arena: TextArena,
    pub(crate) entries: Vec<(TextId, ValueRaw)>,
    pub(crate) errors: Vec<ConfigError>,
    pub(crate) prefix: Vec<char>,
}

impl EvalContext {
    /// Every entry's handles lie inside the arena.
    pub(crate) open spec fn wf(self) -> bool {
        entries_wf(self.arena, self.entries@)
    }
}

/// What every evaluation step guarantees: the state stays well formed,
/// the arena only grows, and existing entries are untouched.
pub(crate) open spec fn ctx_step(pre: EvalContext, post: EvalContext) -> bool {
    &&& post.wf()
    &&& (post.arena == pre.arena || post.arena.extends(pre.arena))
    &&& pre.entries@.len() <= post.entries@.len()
    &&& forall|i: int| 0 <= i < pre.entries@.len() ==> post.entries@[i] == pre.entries@[i]
}

/// Evaluation steps compose.
pub(crate) proof fn lemma_ctx_step_trans(a: EvalContext, b: EvalContext, c: EvalContext)
    requires
        ctx_step(a, b),
        ctx_step(b, c),
    ensures
        ctx_step(a, c),
{
    if c.arena == b.arena {
    } else if b.arena == a.arena {
    } else {
        c.arena.lemma_extends_trans(b.arena, a.arena);
    }
    assert forall|i: int| 0 <= i < a.entries@.len() implies c.entries@[i] == a.entries@[i] by {
        assert(b.entries@[i] == a.entries@[i]);
    }
}

/// Interns a text, keeping every existing entry intact.
fn intern_chars(ctx: &mut EvalContext, chars: &[char]) -> (id: TextId)
    requires
        old(ctx).wf(),
    ensures
        ctx_step(*old(ctx), *final(ctx)),
        final(ctx).entries@ == old(ctx).entries@,
        final(ctx).errors@ == old(ctx).errors@,
        final(ctx).prefix@ == old(ctx).prefix@,
        final(ctx).arena.wf_id(id),
        final(ctx).arena.text(id) == chars@,
{
    let ghost a0 = ctx.arena;
    let id = ctx.arena.intern(chars);
    proof {
        assert forall|i: int|
            0 <= i < ctx.entries@.len() implies ctx.arena.wf_id((#[trigger] ctx.entries@[i]).0)
            && raw_wf(ctx.arena, ctx.entries@[i].1) by {
            ctx.arena.lemma_extends_stable(a0, ctx.entries@[i].0);
            match ctx.entries@[i].1 {
                ValueRaw::Bool(_) => {},
                ValueRaw::Integer(vid) => { ctx.arena.lemma_extends_stable(a0, vid); },
                ValueRaw::String(vid) => { ctx.arena.lemma_extends_stable(a0, vid); },
            }
        }
    }
    id
}

/// The first token child of the given kind, as the tree walk finds it.
pub open spec fn spec_token(children: Seq<CstElement>, kind: SyntaxKind) -> Option<
    crate::cst::CstToken,
>
    decreases children.len(),
{
    if children.len() == 0 {
        None
    } else {
        match children[0] {
            CstElement::Token(t) => if t.kind == kind {
                Some(t)
            } else {
                spec_token(children.drop_first(), kind)
            },
            CstElement::Node(_) => spec_token(children.drop_first(), kind),
        }
    }
}

/// The first node child of the given kind.
pub open spec fn spec_node(children: Seq<CstElement>, kind: SyntaxKind) -> Option<CstNode>
    decreases children.len(),
{
    if children.len() == 0 {
        None
    } else {
        match children[0] {
            CstElement::Node(c) => if c.kind == kind {
                Some(c)
            } else {
                spec_node(children.drop_first(), kind)
            },
            CstElement::Token(_) => spec_node(children.drop_first(), kind),
        }
    }
}

/// The lines of a block string: one slot per line node, holding its
/// string token's text if it has one.
pub open spec fn spec_block_lines(children: Seq<CstElement>) -> Seq<Option<Seq<char>>>
    decreases children.len(),
{
    if children.len() == 0 {
        Seq::empty()
    } else {
        let front = spec_block_lines(children.drop_last());
        match children.last() {
            CstElement::Node(c) => if c.kind == SyntaxKind::LINE_STRING {
                front + seq![
                    match spec_token(c.children@, SyntaxKind::STRING) {
                        Some(t) => Some(t.text@),
                        None => None,
                    },
                ]
            } else {
                front
            },
            CstElement::Token(_) => front,
        }
    }
}

/// Is the block string folded (its header carries `>`)?
pub open spec fn spec_block_folded(children: Seq<CstElement>) -> bool {
    match spec_node(children, SyntaxKind::BLOCK_STRING_HEADER) {
        Some(h) => spec_token(h.children@, SyntaxKind::GREATER) is Some,
        None => false,
    }
}

/// The chomp indicator of the block string's header, if any.
pub open spec fn spec_block_chomp(children: Seq<CstElement>) -> Option<SyntaxKind> {
    match spec_node(children, SyntaxKind::BLOCK_STRING_HEADER) {
        Some(h) => if spec_token(h.children@, SyntaxKind::MINUS) is Some {
            Some(SyntaxKind::MINUS)
        } else if spec_token(h.children@, SyntaxKind::PLUS) is Some {
            Some(SyntaxKind::PLUS)
        } else {
            None
        },
        None => None,
    }
}

/// The assembled text of a block-string node: its lines joined in the
/// header's style, then chomped; no lines yield the empty string.
pub open spec fn spec_block_text(n: CstNode) -> Seq<char> {
    let lines = spec_block_lines(n.children@);
    if lines.len() == 0 {
        Seq::empty()
    } else {
        let raw = if spec_block_folded(n.children@) {
            folded_text(lines)
        } else {
            literal_text(lines)
        };
        chomped(raw, spec_block_chomp(n.children@))
    }
}

/// The sign text of an integer node: a minus, a plus, or nothing.
pub open spec fn spec_sign_text(children: Seq<CstElement>) -> Seq<char> {
    match spec_token(children, SyntaxKind::MINUS) {
        Some(t) => t.text@,
        None => match spec_token(children, SyntaxKind::PLUS) {
            Some(t) => t.text@,
            None => Seq::empty(),
        },
    }
}

/// A grown arena leaves an entry list's contents unchanged.
pub(crate) proof fn lemma_entries_model_stable(
    a_old: TextArena,
    a_new: TextArena,
    entries: Seq<(TextId, ValueRaw)>,
)
    requires
        entries_wf(a_old, entries),
        a_new == a_old || a_new.extends(a_old),
    ensures
        entries_model(a_new, entries) == entries_model(a_old, entries),
        entries_wf(a_new, entries),
{
    if a_new == a_old {
        assert(entries_model(a_new, entries) =~= entries_model(a_old, entries));
    } else {
        assert forall|i: int|
            0 <= i < entries.len() implies a_new.wf_id((#[trigger] entries[i]).0) && raw_wf(
            a_new,
            entries[i].1,
        ) && a_new.text(entries[i].0) == a_old.text(entries[i].0) && raw_model(
            a_new,
            entries[i].1,
        ) == raw_model(a_old, entries[i].1) by {
            a_new.lemma_extends_stable(a_old, entries[i].0);
            match entries[i].1 {
                ValueRaw::Bool(_) => {},
                ValueRaw::Integer(vid) => { a_new.lemma_extends_stable(a_old, vid); },
                ValueRaw::String(vid) => { a_new.lemma_extends_stable(a_old, vid); },
            }
        }
        assert(entries_model(a_new, entries) =~= entries_model(a_old, entries));
    }
}

/// The first child node carrying one of the key kinds.
pub open spec fn spec_first_key_node(children: Seq<CstElement>) -> Option<CstNode>
    decreases children.len(),
{
    if children.len() == 0 {
        None
    } else {
        match children[0] {
            CstElement::Node(c) => if c.kind == SyntaxKind::WORD_KEY || c.kind
                == SyntaxKind::QUOTED_KEY {
                Some(c)
            } else {
                spec_first_key_node(children.drop_first())
            },
            CstElement::Token(_) => spec_first_key_node(children.drop_first()),
        }
    }
}

/// The first child node carrying one of the value kinds.
pub open spec fn spec_first_value_node(children: Seq<CstElement>) -> Option<CstNode>
    decreases children.len(),
{
    if children.len() == 0 {
        None
    } else {
        match children[0] {
            CstElement::Node(c) => if c.kind == SyntaxKind::BOOLEAN || c.kind
                == SyntaxKind::INTEGER || c.kind == SyntaxKind::LINE_STRING || c.kind
                == SyntaxKind::QUOTED_STRING || c.kind == SyntaxKind::BLOCK_STRING {
                Some(c)
            } else {
                spec_first_value_node(children.drop_first())
            },
            CstElement::Token(_) => spec_first_value_node(children.drop_first()),
        }
    }
}

/// The decoded text of a key node, if its inner token is usable.
pub open spec fn spec_key_text(kn: CstNode) -> Option<Seq<char>> {
    if kn.kind == SyntaxKind::WORD_KEY {
        match spec_token(kn.children@, SyntaxKind::WORD) {
            Some(t) => Some(t.text@),
            None => None,
        }
    } else {
        match spec_token(kn.children@, SyntaxKind::STRING) {
            Some(t) => if t.offset + byte_len(t.text@) <= u32::MAX {
                Some(unescaped_text(t.text@))
            } else {
                None
            },
            None => None,
        }
    }
}

/// The value a value node evaluates to, if its required parts are there.
pub open spec fn spec_value_model(vn: CstNode) -> Option<ValueModel> {
    if vn.kind == SyntaxKind::BOOLEAN {
        if spec_token(vn.children@, SyntaxKind::TRUE_KW) is Some {
            Some(ValueModel::Bool(true))
        } else if spec_token(vn.children@, SyntaxKind::FALSE_KW) is Some {
            Some(ValueModel::Bool(false))
        } else {
            None
        }
    } else if vn.kind == SyntaxKind::INTEGER {
        match spec_token(vn.children@, SyntaxKind::NUMERAL) {
            Some(nt) => Some(ValueModel::Int(spec_sign_text(vn.children@) + nt.text@)),
            None => None,
        }
    } else if vn.kind == SyntaxKind::LINE_STRING {
        Some(
            ValueModel::Str(
                match spec_token(vn.children@, SyntaxKind::STRING) {
                    Some(t) => t.text@,
                    None => Seq::empty(),
                },
            ),
        )
    } else if vn.kind == SyntaxKind::QUOTED_STRING {
        match spec_token(vn.children@, SyntaxKind::STRING) {
            Some(t) => if t.offset + byte_len(t.text@) <= u32::MAX {
                Some(ValueModel::Str(unescaped_text(t.text@)))
            } else {
                None
            },
            None => Some(ValueModel::Str(Seq::empty())),
        }
    } else if vn.kind == SyntaxKind::BLOCK_STRING {
        Some(ValueModel::Str(spec_block_text(vn)))
    } else {
        None
    }
}

/// The byte position of a node's first token child, or zero.
pub open spec fn spec_anchor(children: Seq<CstElement>) -> int
    decreases children.len(),
{
    if children.len() == 0 {
        0
    } else {
        match children[0] {
            CstElement::Token(t) => t.offset as int,
            CstElement::Node(_) => spec_anchor(children.drop_first()),
        }
    }
}

/// The errors decoding a key node reports: escape errors from a quoted
/// body, or one missing-syntax error when the inner token is absent.
pub open spec fn spec_key_errors(kn: CstNode) -> Seq<ConfigErrorModel> {
    if kn.kind == SyntaxKind::WORD_KEY {
        match spec_token(kn.children@, SyntaxKind::WORD) {
            Some(t) => Seq::empty(),
            None => seq![
                ConfigErrorModel::MissingSyntax { start: spec_anchor(kn.children@), len: 0 },
            ],
        }
    } else {
        match spec_token(kn.children@, SyntaxKind::STRING) {
            Some(t) => if t.offset + byte_len(t.text@) <= u32::MAX {
                escape_errors(t.text@, t.offset as int)
            } else {
                Seq::empty()
            },
            None => seq![
                ConfigErrorModel::MissingSyntax { start: spec_anchor(kn.children@), len: 0 },
            ],
        }
    }
}

/// The errors evaluating a value node reports.
pub open spec fn spec_value_errors(vn: CstNode) -> Seq<ConfigErrorModel> {
    if vn.kind == SyntaxKind::BOOLEAN {
        if spec_token(vn.children@, SyntaxKind::TRUE_KW) is Some || spec_token(
            vn.children@,
            SyntaxKind::FALSE_KW,
        ) is Some {
            Seq::empty()
        } else {
            seq![ConfigErrorModel::MissingSyntax { start: spec_anchor(vn.children@), len: 0 }]
        }
    } else if vn.kind == SyntaxKind::INTEGER {
        match spec_token(vn.children@, SyntaxKind::NUMERAL) {
            Some(t) => Seq::empty(),
            None => seq![
                ConfigErrorModel::MissingSyntax { start: spec_anchor(vn.children@), len: 0 },
            ],
        }
    } else if vn.kind == SyntaxKind::QUOTED_STRING {
        match spec_token(vn.children@, SyntaxKind::STRING) {
            Some(t) => if t.offset + byte_len(t.text@) <= u32::MAX {
                escape_errors(t.text@, t.offset as int)
            } else {
                Seq::empty()
            },
            None => Seq::empty(),
        }
    } else {
        Seq::empty()
    }
}

/// The errors evaluating one entry node reports: a missing key or value
/// slot gives one missing-syntax error; otherwise the key's decode
/// errors, then (once the key decoded) the value's.
pub open spec fn spec_entry_errors(n: CstNode) -> Seq<ConfigErrorModel> {
    match spec_first_key_node(n.children@) {
        None => seq![ConfigErrorModel::MissingSyntax { start: spec_anchor(n.children@), len: 0 }],
        Some(kn) => match spec_first_value_node(n.children@) {
            None => seq![
                ConfigErrorModel::MissingSyntax { start: spec_anchor(n.children@), len: 0 },
            ],
            Some(vn) => spec_key_errors(kn) + (match spec_key_text(kn) {
                Some(kt) => spec_value_errors(vn),
                None => Seq::empty(),
            }),
        },
    }
}

/// The entry an entry node contributes under the given prefix, if any.
pub open spec fn spec_entry_outcome(n: CstNode, prefix: Seq<char>) -> Option<
    (Seq<char>, ValueModel),
> {
    match spec_first_key_node(n.children@) {
        Some(kn) => match spec_first_value_node(n.children@) {
            Some(vn) => match spec_key_text(kn) {
                Some(kt) => match spec_value_model(vn) {
                    Some(vm) => Some((prefix + kt, vm)),
                    None => None,
                },
                None => None,
            },
            None => None,
        },
        None => None,
    }
}

/// The decoded key a prefix block extends the prefix with, if any.
pub open spec fn spec_block_prefix_key(n: CstNode) -> Option<Seq<char>> {
    match spec_first_key_node(n.children@) {
        Some(kn) => spec_key_text(kn),
        None => None,
    }
}

/// The entries contributed by the items among `children`, in source
/// order, under the given key prefix.
pub open spec fn spec_items_entries(children: Seq<CstElement>, prefix: Seq<char>) -> Seq<
    (Seq<char>, ValueModel),
>
    decreases children,
{
    if children.len() == 0 {
        Seq::empty()
    } else {
        let front = spec_items_entries(children.drop_last(), prefix);
        match children.last() {
            CstElement::Node(c) => if c.kind == SyntaxKind::ENTRY {
                match spec_entry_outcome(c, prefix) {
                    Some(p) => front.push(p),
                    None => front,
                }
            } else if c.kind == SyntaxKind::PREFIX_BLOCK {
                match spec_block_prefix_key(c) {
                    Some(kt) => front + spec_items_entries(c.children@, prefix + kt),
                    None => front,
                }
            } else {
                front
            },
            CstElement::Token(_) => front,
        }
    }
}

/// The errors the items among `children` report, in source order; a
/// prefix block contributes its key's errors and, once the key decoded,
/// its inner items' errors.
pub open spec fn spec_items_errors(children: Seq<CstElement>) -> Seq<ConfigErrorModel>
    decreases children,
{
    if children.len() == 0 {
        Seq::empty()
    } else {
        let front = spec_items_errors(children.drop_last());
        match children.last() {
            CstElement::Node(c) => if c.kind == SyntaxKind::ENTRY {
                front + spec_entry_errors(c)
            } else if c.kind == SyntaxKind::PREFIX_BLOCK {
                front + spec_prefix_block_errors(c)
            } else {
                front
            },
            CstElement::Token(_) => front,
        }
    }
}

/// The errors one prefix block reports.
pub open spec fn spec_prefix_block_errors(n: CstNode) -> Seq<ConfigErrorModel>
    decreases n,
{
    match spec_first_key_node(n.children@) {
        None => seq![ConfigErrorModel::MissingSyntax { start: spec_anchor(n.children@), len: 0 }],
        Some(kn) => spec_key_errors(kn) + (match spec_key_text(kn) {
            Some(kt) => spec_items_errors(n.children@),
            None => Seq::empty(),
        }),
    }
}

/// The abstract contents of an evaluated entry list.
pub(crate) open spec fn entries_model(arena: TextArena, entries: Seq<(TextId, ValueRaw)>) -> Seq<
    (Seq<char>, ValueModel),
> {
    Seq::new(entries.len(), |i: int| (arena.text(entries[i].0), raw_model(arena, entries[i].1)))
}

fn find_key_node<'a>(n: &'a CstNode) -> (r: Option<&'a CstNode>)
    ensures
        r is Some ==> (r->Some_0.kind == SyntaxKind::WORD_KEY || r->Some_0.kind
            == SyntaxKind::QUOTED_KEY),
        match r {
            Some(c) => spec_first_key_node(n.children@) == Some(*c),
            None => spec_first_key_node(n.children@) is None,
        },
{
    let m = n.children.len();
    let mut i: usize = 0;
    proof {
        assert(n.children@.skip(0) =~= n.children@);
    }
    while i < m
        invariant
            m == n.children@.len(),
            i <= m,
            spec_first_key_node(n.children@) == spec_first_key_node(n.children@.skip(i as int)),
        decreases m - i,
    {
        proof {
            assert(n.children@.skip(i as int)[0] == n.children@[i as int]);
            assert(n.children@.skip(i as int).drop_first() =~= n.children@.skip(i + 1));
        }
        match &n.children[i] {
            CstElement::Node(c) => {
                if c.kind == SyntaxKind::WORD_KEY || c.kind == SyntaxKind::QUOTED_KEY {
                    return Some(c);
                }
            },
            CstElement::Token(_) => {},
        }
        i = i + 1;
    }
    proof {
        assert(n.children@.skip(m as int) =~= Seq::<CstElement>::empty());
    }
    None
}

/// The first child node carrying one of the value kinds.
fn find_value_node<'a>(n: &'a CstNode) -> (r: Option<&'a CstNode>)
    ensures
        r is Some ==> (r->Some_0.kind == SyntaxKind::BOOLEAN || r->Some_0.kind
            == SyntaxKind::INTEGER || r->Some_0.kind == SyntaxKind::LINE_STRING || r->Some_0.kind
            == SyntaxKind::QUOTED_STRING || r->Some_0.kind == SyntaxKind::BLOCK_STRING),
        match r {
            Some(c) => spec_first_value_node(n.children@) == Some(*c),
            None => spec_first_value_node(n.children@) is None,
        },
{
    let m = n.children.len();
    let mut i: usize = 0;
    proof {
        assert(n.children@.skip(0) =~= n.children@);
    }
    while i < m
        invariant
            m == n.children@.len(),
            i <= m,
            spec_first_value_node(n.children@) == spec_first_value_node(
                n.children@.skip(i as int),
            ),
        decreases m - i,
    {
        proof {
            assert(n.children@.skip(i as int)[0] == n.children@[i as int]);
            assert(n.children@.skip(i as int).drop_first() =~= n.children@.skip(i + 1));
        }
        match &n.children[i] {
            CstElement::Node(c) => {
                if c.kind == SyntaxKind::BOOLEAN || c.kind == SyntaxKind::INTEGER || c.kind
                    == SyntaxKind::LINE_STRING || c.kind == SyntaxKind::QUOTED_STRING || c.kind
                    == SyntaxKind::BLOCK_STRING {
                    return Some(c);
                }
            },
            CstElement::Token(_) => {},
        }
        i = i + 1;
    }
    proof {
        assert(n.children@.skip(m as int) =~= Seq::<CstElement>::empty());
    }
    None
}

/// The first token child of the given kind.
fn find_token<'a>(n: &'a CstNode, kind: SyntaxKind) -> (r: Option<&'a crate::cst::CstToken>)
    ensures
        match r {
            Some(t) => spec_token(n.children@, kind) == Some(*t),
            None => spec_token(n.children@, kind) is None,
        },
{
    let m = n.children.len();
    let mut i: usize = 0;
    proof {
        assert(n.children@.skip(0) =~= n.children@);
    }
    while i < m
        invariant
            m == n.children@.len(),
            i <= m,
            spec_token(n.children@, kind) == spec_token(n.children@.skip(i as int), kind),
        decreases m - i,
    {
        proof {
            assert(n.children@.skip(i as int)[0] == n.children@[i as int]);
            assert(n.children@.skip(i as int).drop_first() =~= n.children@.skip(i + 1));
        }
        match &n.children[i] {
            CstElement::Token(t) => {
                if t.kind == kind {
                    return Some(t);
                }
            },
            CstElement::Node(_) => {},
        }
        i = i + 1;
    }
    proof {
        assert(n.children@.skip(m as int) =~= Seq::<CstElement>::empty());
    }
    None
}

/// The first node child of the given kind.
fn find_node<'a>(n: &'a CstNode, kind: SyntaxKind) -> (r: Option<&'a CstNode>)
    ensures
        match r {
            Some(c) => spec_node(n.children@, kind) == Some(*c),
            None => spec_node(n.children@, kind) is None,
        },
{
    let m = n.children.len();
    let mut i: usize = 0;
    proof {
        assert(n.children@.skip(0) =~= n.children@);
    }
    while i < m
        invariant
            m == n.children@.len(),
            i <= m,
            spec_node(n.children@, kind) == spec_node(n.children@.skip(i as int), kind),
        decreases m - i,
    {
        proof {
            assert(n.children@.skip(i as int)[0] == n.children@[i as int]);
            assert(n.children@.skip(i as int).drop_first() =~= n.children@.skip(i + 1));
        }
        match &n.children[i] {
            CstElement::Node(c) => {
                if c.kind == kind {
                    return Some(c);
                }
            },
            CstElement::Token(_) => {},
        }
        i = i + 1;
    }
    proof {
        assert(n.children@.skip(m as int) =~= Seq::<CstElement>::empty());
    }
    None
}

/// A zero-width range at the node's first token, for defensive errors.
fn node_anchor(n: &CstNode) -> (r: TextRange)
    ensures
        r.start as int == spec_anchor(n.children@),
        r.len == 0,
{
    let m = n.children.len();
    let mut i: usize = 0;
    proof {
        assert(n.children@.skip(0) =~= n.children@);
    }
    while i < m
        invariant
            m == n.children@.len(),
            i <= m,
            spec_anchor(n.children@) == spec_anchor(n.children@.skip(i as int)),
        decreases m - i,
    {
        proof {
            assert(n.children@.skip(i as int)[0] == n.children@[i as int]);
            assert(n.children@.skip(i as int).drop_first() =~= n.children@.skip(i + 1));
        }
        match &n.children[i] {
            CstElement::Token(t) => {
                return TextRange { start: t.offset, len: 0 };
            },
            CstElement::Node(_) => {},
        }
        i = i + 1;
    }
    proof {
        assert(n.children@.skip(m as int) =~= Seq::<CstElement>::empty());
    }
    TextRange { start: 0, len: 0 }
}

/// Decodes a key node into its text: a word key's token text as it
/// stands, a quoted key's body with its escapes resolved.  A missing
/// inner token records a defensive error and yields nothing.
fn eval_key(n: &CstNode, ctx: &mut EvalContext) -> (r: Option<Vec<char>>)
    requires
        old(ctx).wf(),
    ensures
        ctx_step(*old(ctx), *final(ctx)),
        final(ctx).entries@ == old(ctx).entries@,
        final(ctx).prefix@ == old(ctx).prefix@,
        match spec_key_text(*n) {
            Some(kt) => r is Some && r->Some_0@ == kt,
            None => r is None,
        },
        final(ctx).errors@.map_values(|e: ConfigError| e@) == old(ctx).errors@.map_values(
            |e: ConfigError| e@,
        ) + spec_key_errors(*n),
{
    proof {
        lemma_map_concat_empty(ctx.errors@);
    }
    if n.kind == SyntaxKind::WORD_KEY {
        match find_token(n, SyntaxKind::WORD) {
            Some(t) => {
                let mut out: Vec<char> = Vec::new();
                out.extend_from_slice(t.text.as_slice());
                proof {
                    assert(out@ =~= t.text@);
                }
                Some(out)
            },
            None => {
                let ghost errs0 = ctx.errors@;
                let range = node_anchor(n);
                ctx.errors.push(ConfigError::MissingSyntax { range });
                proof {
                    lemma_map_push_missing(errs0, range, n.children@);
                }
                None
            },
        }
    } else {
        match find_token(n, SyntaxKind::STRING) {
            Some(t) => {
                if byte_budget_ok(t) {
                    let mut out: Vec<char> = Vec::new();
                    unescape(t.text.as_slice(), t.offset, &mut out, &mut ctx.errors);
                    proof {
                        assert(out@ =~= unescaped_text(t.text@));
                    }
                    Some(out)
                } else {
                    // the token's byte range cannot be addressed
                    None
                }
            },
            None => {
                let ghost errs0 = ctx.errors@;
                let range = node_anchor(n);
                ctx.errors.push(ConfigError::MissingSyntax { range });
                proof {
                    lemma_map_push_missing(errs0, range, n.children@);
                }
                None
            },
        }
    }
}

/// Mapping distributes over appending nothing.
proof fn lemma_map_concat_empty(errs: Seq<ConfigError>)
    ensures
        errs.map_values(|e: ConfigError| e@) + Seq::<ConfigErrorModel>::empty()
            =~= errs.map_values(|e: ConfigError| e@),
{
}

/// Pushing one missing-syntax error appends exactly its model.
proof fn lemma_map_push_missing(errs: Seq<ConfigError>, range: TextRange, children: Seq<CstElement>)
    requires
        range.start as int == spec_anchor(children),
        range.len == 0,
    ensures
        errs.push(ConfigError::MissingSyntax { range }).map_values(|e: ConfigError| e@)
            =~= errs.map_values(|e: ConfigError| e@) + seq![
            ConfigErrorModel::MissingSyntax { start: spec_anchor(children), len: 0 },
        ],
{
}

/// Decides whether the token's byte range fits the offset arithmetic of
/// escape decoding.
fn byte_budget_ok(t: &crate::cst::CstToken) -> (r: bool)
    ensures
        r == (t.offset + byte_len(t.text@) <= u32::MAX),
{
    let n = t.text.len();
    let mut i: usize = 0;
    let mut b: u32 = 0;
    proof {
        assert(t.text@.take(0) =~= Seq::<char>::empty());
    }
    while i < n
        invariant
            n == t.text@.len(),
            i <= n,
            b as int == byte_len(t.text@.take(i as int)),
            t.offset + b <= u32::MAX,
        decreases n - i,
    {
        let w = char_utf8_len(t.text[i]);
        proof {
            lemma_take_snoc_byte(t.text@, i as int);
            lemma_unescape_bounds(t.text@, i + 1);
        }
        if w > u32::MAX - b || t.offset as u64 + b as u64 + w as u64 > u32::MAX as u64 {
            proof {
                assert(byte_len(t.text@) >= byte_len(t.text@.take(i + 1)));
            }
            return false;
        }
        b = b + w;
        i = i + 1;
    }
    proof {
        assert(t.text@.take(n as int) =~= t.text@);
    }
    true
}

/// Evaluates a value node into a stored value, exactly as the node's
/// shape dictates; a missing required part records a defensive error and
/// yields nothing.
fn eval_value(n: &CstNode, ctx: &mut EvalContext) -> (r: Option<ValueRaw>)
    requires
        old(ctx).wf(),
    ensures
        ctx_step(*old(ctx), *final(ctx)),
        final(ctx).entries@ == old(ctx).entries@,
        final(ctx).prefix@ == old(ctx).prefix@,
        r is Some ==> raw_wf(final(ctx).arena, r->Some_0),
        (n.kind == SyntaxKind::BOOLEAN || n.kind == SyntaxKind::INTEGER || n.kind
            == SyntaxKind::LINE_STRING || n.kind == SyntaxKind::QUOTED_STRING || n.kind
            == SyntaxKind::BLOCK_STRING) ==> (match spec_value_model(*n) {
            Some(vm) => r is Some && raw_model(final(ctx).arena, r->Some_0) == vm,
            None => r is None,
        }),
        final(ctx).errors@.map_values(|e: ConfigError| e@) == old(ctx).errors@.map_values(
            |e: ConfigError| e@,
        ) + spec_value_errors(*n),
{
    proof {
        lemma_map_concat_empty(ctx.errors@);
    }
    if n.kind == SyntaxKind::BOOLEAN {
        if find_token(n, SyntaxKind::TRUE_KW).is_some() {
            Some(ValueRaw::Bool(true))
        } else if find_token(n, SyntaxKind::FALSE_KW).is_some() {
            Some(ValueRaw::Bool(false))
        } else {
            let ghost errs0 = ctx.errors@;
            let range = node_anchor(n);
            ctx.errors.push(ConfigError::MissingSyntax { range });
            proof {
                lemma_map_push_missing(errs0, range, n.children@);
            }
            None
        }
    } else if n.kind == SyntaxKind::INTEGER {
        match find_token(n, SyntaxKind::NUMERAL) {
            Some(num) => {
                let mut text: Vec<char> = Vec::new();
                match find_token(n, SyntaxKind::MINUS) {
                    Some(sign) => { text.extend_from_slice(sign.text.as_slice()); },
                    None => {
                        match find_token(n, SyntaxKind::PLUS) {
                            Some(sign) => { text.extend_from_slice(sign.text.as_slice()); },
                            None => {},
                        }
                    },
                }
                proof {
                    assert(text@ =~= spec_sign_text(n.children@));
                }
                text.extend_from_slice(num.text.as_slice());
                proof {
                    assert(text@ =~= spec_sign_text(n.children@) + num.text@);
                }
                let id = intern_chars(ctx, text.as_slice());
                Some(ValueRaw::Integer(id))
            },
            None => {
                let ghost errs0 = ctx.errors@;
                let range = node_anchor(n);
                ctx.errors.push(ConfigError::MissingSyntax { range });
                proof {
                    lemma_map_push_missing(errs0, range, n.children@);
                }
                None
            },
        }
    } else if n.kind == SyntaxKind::LINE_STRING {
        let mut text: Vec<char> = Vec::new();
        match find_token(n, SyntaxKind::STRING) {
            Some(t) => {
                text.extend_from_slice(t.text.as_slice());
                proof {
                    assert(text@ =~= t.text@);
                }
            },
            None => {
                proof {
                    assert(text@ =~= Seq::<char>::empty());
                }
            },
        }
        let id = intern_chars(ctx, text.as_slice());
        Some(ValueRaw::String(id))
    } else if n.kind == SyntaxKind::QUOTED_STRING {
        let mut text: Vec<char> = Vec::new();
        match find_token(n, SyntaxKind::STRING) {
            Some(t) => {
                if !byte_budget_ok(t) {
                    // the token's byte range cannot be addressed
                    return None;
                }
                unescape(t.text.as_slice(), t.offset, &mut text, &mut ctx.errors);
                proof {
                    assert(text@ =~= unescaped_text(t.text@));
                }
            },
            None => {
                proof {
                    assert(text@ =~= Seq::<char>::empty());
                }
            },
        }
        let id = intern_chars(ctx, text.as_slice());
        Some(ValueRaw::String(id))
    } else {
        block_string_value(n, ctx)
    }
}

/// Assembles and interns a block-string node's text.
fn block_string_value(n: &CstNode, ctx: &mut EvalContext) -> (r: Option<ValueRaw>)
    requires
        old(ctx).wf(),
    ensures
        ctx_step(*old(ctx), *final(ctx)),
        final(ctx).entries@ == old(ctx).entries@,
        final(ctx).prefix@ == old(ctx).prefix@,
        final(ctx).errors@ == old(ctx).errors@,
        r is Some && raw_wf(final(ctx).arena, r->Some_0),
        raw_model(final(ctx).arena, r->Some_0) == ValueModel::Str(spec_block_text(*n)),
{
    let mut is_folded = false;
    let mut chomp: Option<SyntaxKind> = None;
    match find_node(n, SyntaxKind::BLOCK_STRING_HEADER) {
        Some(h) => {
            if find_token(h, SyntaxKind::GREATER).is_some() {
                is_folded = true;
            }
            if find_token(h, SyntaxKind::MINUS).is_some() {
                chomp = Some(SyntaxKind::MINUS);
            } else if find_token(h, SyntaxKind::PLUS).is_some() {
                chomp = Some(SyntaxKind::PLUS);
            }
        },
        None => {},
    }
    proof {
        assert(is_folded == spec_block_folded(n.children@));
        assert(chomp == spec_block_chomp(n.children@));
    }
    let m = n.children.len();
    let mut i: usize = 0;
    let mut lines: Vec<Option<String>> = Vec::new();
    proof {
        assert(n.children@.take(0) =~= Seq::<CstElement>::empty());
        assert(line_views(lines@) =~= spec_block_lines(n.children@.take(0)));
    }
    while i < m
        invariant
            old(ctx).wf(),
            *ctx == *old(ctx),
            m == n.children@.len(),
            i <= m,
            line_views(lines@) == spec_block_lines(n.children@.take(i as int)),
        decreases m - i,
    {
        let ghost lines0 = lines@;
        proof {
            assert(n.children@.take(i + 1).drop_last() =~= n.children@.take(i as int));
            assert(n.children@.take(i + 1).last() == n.children@[i as int]);
        }
        match &n.children[i] {
            CstElement::Node(c) => {
                if c.kind == SyntaxKind::LINE_STRING {
                    match find_token(c, SyntaxKind::STRING) {
                        Some(t) => {
                            lines.push(Some(crate::text::chars_to_string(t.text.as_slice())));
                        },
                        None => {
                            lines.push(None);
                        },
                    }
                    proof {
                        assert(line_views(lines@) =~= line_views(lines0) + seq![
                            match spec_token(c.children@, SyntaxKind::STRING) {
                                Some(t) => Some(t.text@),
                                None => None,
                            },
                        ]);
                    }
                }
            },
            CstElement::Token(_) => {},
        }
        proof {
            assert(line_views(lines@) =~= spec_block_lines(n.children@.take(i + 1)));
        }
        i = i + 1;
    }
    proof {
        assert(n.children@.take(m as int) =~= n.children@);
    }
    let text: String = if lines.len() == 0 {
        let empty_chars: Vec<char> = Vec::new();
        proof {
            assert(spec_block_lines(n.children@).len() == 0);
        }
        crate::text::chars_to_string(empty_chars.as_slice())
    } else {
        let raw = if is_folded {
            fold_lines(lines.as_slice())
        } else {
            literal_lines(lines.as_slice())
        };
        apply_chomp(raw.as_str(), chomp)
    };
    proof {
        assert(text@ == spec_block_text(*n));
    }
    let cs = str_chars(text.as_str());
    let id = intern_chars(ctx, cs.as_slice());
    Some(ValueRaw::String(id))
}

/// Evaluates one entry: compose the full key from the prefix, evaluate
/// the value, and append the pair the node denotes; a node with missing
/// or unusable parts appends nothing.
fn eval_entry(n: &CstNode, ctx: &mut EvalContext)
    requires
        old(ctx).wf(),
    ensures
        ctx_step(*old(ctx), *final(ctx)),
        final(ctx).prefix@ == old(ctx).prefix@,
        match spec_entry_outcome(*n, old(ctx).prefix@) {
            Some(p) => final(ctx).entries@.len() == old(ctx).entries@.len() + 1
                && final(ctx).arena.text(final(ctx).entries@.last().0) == p.0
                && raw_model(final(ctx).arena, final(ctx).entries@.last().1) == p.1,
            None => final(ctx).entries@ == old(ctx).entries@,
        },
        final(ctx).errors@.map_values(|e: ConfigError| e@) == old(ctx).errors@.map_values(
            |e: ConfigError| e@,
        ) + spec_entry_errors(*n),
{
    proof {
        lemma_map_concat_empty(ctx.errors@);
    }
    let key_node = match find_key_node(n) {
        Some(k) => k,
        None => {
            let ghost errs0 = ctx.errors@;
            let range = node_anchor(n);
            ctx.errors.push(ConfigError::MissingSyntax { range });
            proof {
                lemma_map_push_missing(errs0, range, n.children@);
            }
            return ;
        },
    };
    let value_node = match find_value_node(n) {
        Some(v) => v,
        None => {
            let ghost errs0 = ctx.errors@;
            let range = node_anchor(n);
            ctx.errors.push(ConfigError::MissingSyntax { range });
            proof {
                lemma_map_push_missing(errs0, range, n.children@);
            }
            return ;
        },
    };
    let ghost st0 = *old(ctx);
    let ghost st1 = *ctx;
    let key_text = match eval_key(key_node, ctx) {
        Some(t) => t,
        None => {
            proof {
                lemma_ctx_step_trans(st0, st1, *ctx);
                lemma_map_concat_empty(st0.errors@);
                assert(spec_entry_errors(*n) =~= spec_key_errors(*key_node));
            }
            return ;
        },
    };
    proof {
        lemma_ctx_step_trans(st0, st1, *ctx);
    }
    // the full key is the current prefix followed by the key text
    let mut full_key: Vec<char> = Vec::new();
    full_key.extend_from_slice(ctx.prefix.as_slice());
    full_key.extend_from_slice(key_text.as_slice());
    let ghost st2 = *ctx;
    let key_id = intern_chars(ctx, full_key.as_slice());
    let ghost a_intern = ctx.arena;
    proof {
        lemma_ctx_step_trans(st0, st2, *ctx);
    }
    let ghost st3 = *ctx;
    let raw = match eval_value(value_node, ctx) {
        Some(v) => v,
        None => {
            proof {
                lemma_ctx_step_trans(st0, st3, *ctx);
                assert(ctx.errors@.map_values(|e: ConfigError| e@) =~= st0.errors@.map_values(
                    |e: ConfigError| e@,
                ) + (spec_key_errors(*key_node) + spec_value_errors(*value_node)));
                assert(spec_entry_errors(*n) =~= spec_key_errors(*key_node) + spec_value_errors(
                    *value_node,
                ));
            }
            return ;
        },
    };
    proof {
        lemma_ctx_step_trans(st0, st3, *ctx);
        assert(ctx.errors@.map_values(|e: ConfigError| e@) =~= st0.errors@.map_values(
            |e: ConfigError| e@,
        ) + (spec_key_errors(*key_node) + spec_value_errors(*value_node)));
        assert(spec_entry_errors(*n) =~= spec_key_errors(*key_node) + spec_value_errors(
            *value_node,
        ));
        if ctx.arena == a_intern {
        } else {
            ctx.arena.lemma_extends_stable(a_intern, key_id);
        }
    }
    let ghost entries0 = ctx.entries@;
    ctx.entries.push((key_id, raw));
    proof {
        assert forall|i: int|
            0 <= i < ctx.entries@.len() implies ctx.arena.wf_id((#[trigger] ctx.entries@[i]).0)
            && raw_wf(ctx.arena, ctx.entries@[i].1) by {
            if i < ctx.entries@.len() - 1 {
                assert(ctx.entries@[i] == entries0[i]);
            }
        }
        assert(ctx.entries@.last() == (key_id, raw));
        assert(full_key@ == old(ctx).prefix@ + key_text@);
    }
}

/// Evaluates the items under a node: entries and nested prefix blocks
/// contribute their entries in source order; directives, comments, and
/// error nodes contribute nothing.
fn eval_items(children: &Vec<CstElement>, ctx: &mut EvalContext)
    requires
        old(ctx).wf(),
    ensures
        ctx_step(*old(ctx), *final(ctx)),
        final(ctx).prefix@ == old(ctx).prefix@,
        entries_model(final(ctx).arena, final(ctx).entries@) == entries_model(
            old(ctx).arena,
            old(ctx).entries@,
        ) + spec_items_entries(children@, old(ctx).prefix@),
        final(ctx).errors@.map_values(|e: ConfigError| e@) == old(ctx).errors@.map_values(
            |e: ConfigError| e@,
        ) + spec_items_errors(children@),
    decreases children,
{
    let m = children.len();
    let mut i: usize = 0;
    let ghost pre = *ctx;
    proof {
        assert(children@.take(0) =~= Seq::<CstElement>::empty());
        assert(entries_model(pre.arena, pre.entries@) + spec_items_entries(
            children@.take(0),
            pre.prefix@,
        ) =~= entries_model(pre.arena, pre.entries@));
        assert(pre.errors@.map_values(|e: ConfigError| e@) + spec_items_errors(
            children@.take(0),
        ) =~= pre.errors@.map_values(|e: ConfigError| e@));
    }
    while i < m
        invariant
            m == children@.len(),
            i <= m,
            ctx_step(pre, *ctx),
            ctx.prefix@ == pre.prefix@,
            pre == *old(ctx),
            entries_model(ctx.arena, ctx.entries@) == entries_model(pre.arena, pre.entries@)
                + spec_items_entries(children@.take(i as int), pre.prefix@),
            ctx.errors@.map_values(|e: ConfigError| e@) == pre.errors@.map_values(
                |e: ConfigError| e@,
            ) + spec_items_errors(children@.take(i as int)),
        decreases m - i,
    {
        proof {
            assert(children@.take(i + 1).drop_last() =~= children@.take(i as int));
            assert(children@.take(i + 1).last() == children@[i as int]);
        }
        match &children[i] {
            CstElement::Node(c) => {
                if c.kind == SyntaxKind::ENTRY {
                    let ghost mid = *ctx;
                    eval_entry(c, ctx);
                    proof {
                        lemma_ctx_step_trans(pre, mid, *ctx);
                        lemma_entries_model_stable(mid.arena, ctx.arena, mid.entries@);
                        assert(ctx.errors@.map_values(|e: ConfigError| e@) =~= pre.errors@.map_values(
                            |e: ConfigError| e@,
                        ) + (spec_items_errors(children@.take(i as int)) + spec_entry_errors(
                            *c,
                        )));
                        assert(spec_items_errors(children@.take(i + 1)) =~= spec_items_errors(
                            children@.take(i as int),
                        ) + spec_entry_errors(*c));
                        match spec_entry_outcome(*c, pre.prefix@) {
                            Some(p) => {
                                assert(ctx.entries@.len() == mid.entries@.len() + 1);
                                assert forall|j: int| 0 <= j < mid.entries@.len() implies (
                                #[trigger] ctx.entries@[j]) == mid.entries@[j] by {}
                                assert(entries_model(ctx.arena, ctx.entries@) =~= entries_model(
                                    mid.arena,
                                    mid.entries@,
                                ).push(p));
                                assert(entries_model(mid.arena, mid.entries@).push(p)
                                    =~= entries_model(pre.arena, pre.entries@) + spec_items_entries(
                                    children@.take(i + 1),
                                    pre.prefix@,
                                ));
                            },
                            None => {
                                assert(entries_model(ctx.arena, ctx.entries@) =~= entries_model(
                                    mid.arena,
                                    mid.entries@,
                                ));
                            },
                        }
                    }
                } else if c.kind == SyntaxKind::PREFIX_BLOCK {
                    let ghost mid = *ctx;
                    eval_prefix_block(c, ctx);
                    proof {
                        lemma_ctx_step_trans(pre, mid, *ctx);
                        assert((entries_model(pre.arena, pre.entries@) + spec_items_entries(
                            children@.take(i as int),
                            pre.prefix@,
                        )) + (match spec_block_prefix_key(*c) {
                            Some(kt) => spec_items_entries(c.children@, pre.prefix@ + kt),
                            None => Seq::<(Seq<char>, ValueModel)>::empty(),
                        }) =~= entries_model(pre.arena, pre.entries@) + spec_items_entries(
                            children@.take(i + 1),
                            pre.prefix@,
                        ));
                        assert(ctx.errors@.map_values(|e: ConfigError| e@) =~= pre.errors@.map_values(
                            |e: ConfigError| e@,
                        ) + (spec_items_errors(children@.take(i as int))
                            + spec_prefix_block_errors(*c)));
                        assert(spec_items_errors(children@.take(i + 1)) =~= spec_items_errors(
                            children@.take(i as int),
                        ) + spec_prefix_block_errors(*c));
                    }
                } else {
                    proof {
                        assert(spec_items_entries(children@.take(i + 1), pre.prefix@)
                            =~= spec_items_entries(children@.take(i as int), pre.prefix@));
                        assert(spec_items_errors(children@.take(i + 1)) =~= spec_items_errors(
                            children@.take(i as int),
                        ));
                    }
                }
            },
            CstElement::Token(_) => {
                proof {
                    assert(spec_items_entries(children@.take(i + 1), pre.prefix@)
                        =~= spec_items_entries(children@.take(i as int), pre.prefix@));
                    assert(spec_items_errors(children@.take(i + 1)) =~= spec_items_errors(
                        children@.take(i as int),
                    ));
                }
            },
        }
        i = i + 1;
    }
    proof {
        assert(children@.take(m as int) =~= children@);
    }
}

/// Evaluates a prefix block: extend the prefix with the block's key,
/// evaluate the items inside, then restore the prefix.
fn eval_prefix_block(n: &CstNode, ctx: &mut EvalContext)
    requires
        old(ctx).wf(),
    ensures
        ctx_step(*old(ctx), *final(ctx)),
        final(ctx).prefix@ == old(ctx).prefix@,
        entries_model(final(ctx).arena, final(ctx).entries@) == entries_model(
            old(ctx).arena,
            old(ctx).entries@,
        ) + (match spec_block_prefix_key(*n) {
            Some(kt) => spec_items_entries(n.children@, old(ctx).prefix@ + kt),
            None => Seq::empty(),
        }),
        final(ctx).errors@.map_values(|e: ConfigError| e@) == old(ctx).errors@.map_values(
            |e: ConfigError| e@,
        ) + spec_prefix_block_errors(*n),
    decreases n,
{
    proof {
        lemma_map_concat_empty(ctx.errors@);
    }
    let key_node = match find_key_node(n) {
        Some(k) => k,
        None => {
            let ghost errs0 = ctx.errors@;
            let range = node_anchor(n);
            ctx.errors.push(ConfigError::MissingSyntax { range });
            proof {
                assert(entries_model(ctx.arena, ctx.entries@) + Seq::<
                    (Seq<char>, ValueModel),
                >::empty() =~= entries_model(ctx.arena, ctx.entries@));
                lemma_map_push_missing(errs0, range, n.children@);
            }
            return ;
        },
    };
    let ghost st0 = *old(ctx);
    let ghost st1 = *ctx;
    let key_text = match eval_key(key_node, ctx) {
        Some(t) => t,
        None => {
            proof {
                lemma_ctx_step_trans(st0, st1, *ctx);
                lemma_entries_model_stable(st0.arena, ctx.arena, st0.entries@);
                assert(entries_model(st0.arena, st0.entries@) + Seq::<
                    (Seq<char>, ValueModel),
                >::empty() =~= entries_model(st0.arena, st0.entries@));
                lemma_map_concat_empty(st0.errors@);
                assert(spec_prefix_block_errors(*n) =~= spec_key_errors(*key_node));
            }
            return ;
        },
    };
    proof {
        lemma_ctx_step_trans(st0, st1, *ctx);
        lemma_entries_model_stable(st0.arena, ctx.arena, st0.entries@);
    }
    let saved_len = ctx.prefix.len();
    ctx.prefix.extend_from_slice(key_text.as_slice());
    let ghost before_items = *ctx;
    proof {
        assert(before_items.prefix@ == st0.prefix@ + key_text@);
    }
    eval_items(&n.children, ctx);
    ctx.prefix.truncate(saved_len);
    proof {
        lemma_ctx_step_trans(st0, before_items, *ctx);
        assert(ctx.prefix@ =~= old(ctx).prefix@);
        assert(ctx.errors@.map_values(|e: ConfigError| e@) =~= st0.errors@.map_values(
            |e: ConfigError| e@,
        ) + (spec_key_errors(*key_node) + spec_items_errors(n.children@)));
        assert(spec_prefix_block_errors(*n) =~= spec_key_errors(*key_node) + spec_items_errors(
            n.children@,
        ));
    }
}

/// Evaluates a whole source tree into arena, entries, and errors: the
/// entries are exactly those the tree's items denote.
pub(crate) fn eval_tree(root: &CstNode) -> (r: (TextArena, Vec<(TextId, ValueRaw)>, Vec<
    ConfigError,
>))
    ensures
        entries_wf(r.0, r.1@),
        entries_model(r.0, r.1@) == spec_items_entries(root.children@, Seq::<char>::empty()),
        r.2@.map_values(|e: ConfigError| e@) == spec_items_errors(root.children@),
{
    let mut ctx = EvalContext {
        arena: TextArena::new(),
        entries: Vec::new(),
        errors: Vec::new(),
        prefix: Vec::new(),
    };
    proof {
        assert(entries_model(ctx.arena, ctx.entries@) =~= Seq::<(Seq<char>, ValueModel)>::empty());
        assert(ctx.errors@.map_values(|e: ConfigError| e@) =~= Seq::<ConfigErrorModel>::empty());
    }
    let ghost start = ctx;
    eval_items(&root.children, &mut ctx);
    proof {
        assert(entries_model(start.arena, start.entries@) + spec_items_entries(
            root.children@,
            start.prefix@,
        ) =~= spec_items_entries(root.children@, Seq::<char>::empty()));
        assert(start.errors@.map_values(|e: ConfigError| e@) + spec_items_errors(root.children@)
            =~= spec_items_errors(root.children@));
    }
    (ctx.arena, ctx.entries, ctx.errors)
}

/// The byte budget of a suffix stays within the whole text's budget.
proof fn lemma_unescape_bounds(s: Seq<char>, i: int)
    requires
        0 <= i <= s.len(),
    ensures
        byte_len(s.take(i)) + byte_len(s.skip(i)) == byte_len(s),
        byte_len(s.take(i)) >= 0,
        byte_len(s.skip(i)) >= 0,
{
    assert(s =~= s.take(i) + s.skip(i));
    lemma_byte_len_concat(s.take(i), s.skip(i));
    lemma_byte_len_bounds(s.take(i));
    lemma_byte_len_bounds(s.skip(i));
}

/// One more character adds its width to the consumed bytes.
proof fn lemma_take_snoc_byte(s: Seq<char>, i: int)
    requires
        0 <= i < s.len(),
    ensures
        byte_len(s.take(i + 1)) == byte_len(s.take(i)) + utf8_len(s[i]),
{
    assert(s.take(i + 1) =~= s.take(i) + seq![s[i]]);
    lemma_byte_len_concat(s.take(i), seq![s[i]]);
    assert(seq![s[i]].drop_first() =~= Seq::<char>::empty());
    assert(byte_len(Seq::<char>::empty()) == 0);
    assert(byte_len(seq![s[i]]) == utf8_len(s[i]));
}

/// Two more characters add their widths to the consumed bytes.
proof fn lemma_take_two_bytes(s: Seq<char>, i: int)
    requires
        0 <= i,
        i + 2 <= s.len(),
    ensures
        byte_len(s.take(i + 2)) == byte_len(s.take(i)) + utf8_len(s[i]) + utf8_len(s[i + 1]),
{
    lemma_take_snoc_byte(s, i);
    lemma_take_snoc_byte(s, i + 1);
}

} // verus!

//! Registering a local task to start with the system: a launch agent on
//! macOS, a systemd user service on Linux, a scheduled task on Windows.
use vstd::prelude::*;

use crate::commands::{texts, CommandSpec, Platform};
use crate::tasks::{message, AppError, Task};
use crate::text::{chars_of, owned, push_chars};

verus! {

/// How `c` is written in XML text.
pub open spec fn xml_entity(c: char) -> Seq<char> {
    if c == '&' {
        seq!['&', 'a', 'm', 'p', ';']
    } else if c == '<' {
        seq!['&', 'l', 't', ';']
    } else if c == '>' {
        seq!['&', 'g', 't', ';']
    } else if c == '"' {
        seq!['&', 'q', 'u', 'o', 't', ';']
    } else if c == '\'' {
        seq!['&', 'a', 'p', 'o', 's', ';']
    } else {
        seq![c]
    }
}

/// `s` with each of `& < > " '` written as its XML entity.
pub open spec fn xml_escaped(s: Seq<char>) -> Seq<char>
    decreases s.len(),
{
    if s.len() == 0 {
        seq![]
    } else {
        xml_escaped(s.drop_last()) + xml_entity(s.last())
    }
}

/// A character that XML text may not hold as it is.
pub open spec fn xml_special(c: char) -> bool {
    c == '<' || c == '>' || c == '"' || c == '\''
}

/// Escaped text holds none of `< > " '`, so it stays inside the element
/// or the quoted attribute it is written into.
pub proof fn lemma_xml_escaped_safe(s: Seq<char>)
    ensures
        forall|i: int| 0 <= i < xml_escaped(s).len() ==> !xml_special(#[trigger] xml_escaped(s)[i]),
    decreases s.len(),
{
    if s.len() > 0 {
        lemma_xml_escaped_safe(s.drop_last());
        let p = xml_escaped(s.drop_last());
        let e = xml_entity(s.last());
        assert forall|i: int| 0 <= i < xml_escaped(s).len() implies !xml_special(#[trigger] xml_escaped(s)[i]) by {
            if i >= p.len() {
                assert(xml_escaped(s)[i] == e[i - p.len()]);
            } else {
                assert(xml_escaped(s)[i] == p[i]);
            }
        }
    }
}

/// Text without any of `& < > " '` is its own escape.
pub proof fn lemma_xml_escaped_plain(s: Seq<char>)
    requires
        forall|i: int| 0 <= i < s.len() ==> !xml_special(#[trigger] s[i]) && s[i] != '&',
    ensures
        xml_escaped(s) == s,
    decreases s.len(),
{
    if s.len() > 0 {
        lemma_xml_escaped_plain(s.drop_last());
        assert(s.drop_last() + seq![s.last()] =~= s);
    }
}

/// `t` with each XML entity `&amp; &lt; &gt; &quot; &apos;` read back as
/// its character, from left to right.
pub open spec fn xml_unescaped(t: Seq<char>) -> Seq<char>
    decreases t.len(),
{
    if t.len() == 0 {
        seq![]
    } else if t.len() >= 5 && t.take(5) == seq!['&', 'a', 'm', 'p', ';'] {
        seq!['&'] + xml_unescaped(t.skip(5))
    } else if t.len() >= 4 && t.take(4) == seq!['&', 'l', 't', ';'] {
        seq!['<'] + xml_unescaped(t.skip(4))
    } else if t.len() >= 4 && t.take(4) == seq!['&', 'g', 't', ';'] {
        seq!['>'] + xml_unescaped(t.skip(4))
    } else if t.len() >= 6 && t.take(6) == seq!['&', 'q', 'u', 'o', 't', ';'] {
        seq!['"'] + xml_unescaped(t.skip(6))
    } else if t.len() >= 6 && t.take(6) == seq!['&', 'a', 'p', 'o', 's', ';'] {
        seq!['\''] + xml_unescaped(t.skip(6))
    } else {
        seq![t[0]] + xml_unescaped(t.drop_first())
    }
}

/// An XML entity of the escape starts at position `i` of `t`.
pub open spec fn entity_at(t: Seq<char>, i: int) -> bool {
    ||| i + 5 <= t.len() && t.subrange(i, i + 5) == seq!['&', 'a', 'm', 'p', ';']
    ||| i + 4 <= t.len() && t.subrange(i, i + 4) == seq!['&', 'l', 't', ';']
    ||| i + 4 <= t.len() && t.subrange(i, i + 4) == seq!['&', 'g', 't', ';']
    ||| i + 6 <= t.len() && t.subrange(i, i + 6) == seq!['&', 'q', 'u', 'o', 't', ';']
    ||| i + 6 <= t.len() && t.subrange(i, i + 6) == seq!['&', 'a', 'p', 'o', 's', ';']
}

proof fn lemma_xml_escaped_first(s: Seq<char>)
    requires
        s.len() > 0,
    ensures
        xml_escaped(s) == xml_entity(s[0]) + xml_escaped(s.drop_first()),
    decreases s.len(),
{
    if s.len() == 1 {
        assert(s.drop_last() =~= seq![]);
        assert(s.drop_first() =~= seq![]);
        assert(xml_escaped(s.drop_last()) =~= seq![]);
        assert(xml_entity(s[0]) + seq![] =~= xml_entity(s[0]));
    } else {
        lemma_xml_escaped_first(s.drop_last());
        assert(s.drop_last()[0] == s[0]);
        assert(s.drop_last().drop_first() =~= s.drop_first().drop_last());
        assert(s.drop_first().last() == s.last());
        assert(xml_escaped(s.drop_first()) == xml_escaped(s.drop_first().drop_last()) + xml_entity(
            s.drop_first().last(),
        ));
        assert(xml_escaped(s) =~= xml_entity(s[0]) + xml_escaped(s.drop_first()));
    }
}

proof fn lemma_xml_unescape_entity(c: char, rest: Seq<char>)
    ensures
        xml_unescaped(xml_entity(c) + rest) == seq![c] + xml_unescaped(rest),
{
    let e = xml_entity(c);
    let t = e + rest;
    let amp: Seq<char> = seq!['&', 'a', 'm', 'p', ';'];
    let lt: Seq<char> = seq!['&', 'l', 't', ';'];
    let gt: Seq<char> = seq!['&', 'g', 't', ';'];
    let quot: Seq<char> = seq!['&', 'q', 'u', 'o', 't', ';'];
    let apos: Seq<char> = seq!['&', 'a', 'p', 'o', 's', ';'];
    if c == '&' {
        assert(t.take(5) =~= amp);
        assert(t.skip(5) =~= rest);
    } else if c == '<' {
        assert(t.take(4) =~= lt);
        assert(t.skip(4) =~= rest);
        if t.len() >= 5 {
            assert(t.take(5)[1] != amp[1]);
        }
    } else if c == '>' {
        assert(t.take(4) =~= gt);
        assert(t.skip(4) =~= rest);
        if t.len() >= 5 {
            assert(t.take(5)[1] != amp[1]);
        }
        assert(t.take(4)[1] != lt[1]);
    } else if c == '"' {
        assert(t.take(6) =~= quot);
        assert(t.skip(6) =~= rest);
        assert(t.take(5)[1] != amp[1]);
        assert(t.take(4)[1] != lt[1]);
        assert(t.take(4)[1] != gt[1]);
    } else if c == '\'' {
        assert(t.take(6) =~= apos);
        assert(t.skip(6) =~= rest);
        assert(t.take(5)[2] != amp[2]);
        assert(t.take(4)[1] != lt[1]);
        assert(t.take(4)[1] != gt[1]);
        assert(t.take(6)[1] != quot[1]);
    } else {
        assert(t[0] == c);
        if t.len() >= 4 {
            assert(t.take(4)[0] != lt[0]);
        }
        if t.len() >= 5 {
            assert(t.take(5)[0] != amp[0]);
        }
        if t.len() >= 6 {
            assert(t.take(6)[0] != quot[0]);
        }
        assert(t.drop_first() =~= rest);
    }
}

/// Reading the entities of escaped text back gives the text that was
/// escaped.
pub proof fn lemma_xml_escape_round_trip(s: Seq<char>)
    ensures
        xml_unescaped(xml_escaped(s)) == s,
    decreases s.len(),
{
    if s.len() == 0 {
        assert(xml_escaped(s) =~= seq![]);
    } else {
        lemma_xml_escaped_first(s);
        lemma_xml_unescape_entity(s[0], xml_escaped(s.drop_first()));
        lemma_xml_escape_round_trip(s.drop_first());
        assert(seq![s[0]] + s.drop_first() =~= s);
    }
}

/// Every `&` of escaped text begins one of the entities
/// `&amp; &lt; &gt; &quot; &apos;`.
pub proof fn lemma_xml_escaped_ampersands(s: Seq<char>)
    ensures
        forall|i: int|
            0 <= i < xml_escaped(s).len() && #[trigger] xml_escaped(s)[i] == '&' ==> entity_at(
                xml_escaped(s),
                i,
            ),
    decreases s.len(),
{
    if s.len() > 0 {
        lemma_xml_escaped_ampersands(s.drop_last());
        let p = xml_escaped(s.drop_last());
        let q = xml_entity(s.last());
        let t = xml_escaped(s);
        assert(t == p + q);
        assert forall|i: int| 0 <= i < t.len() && #[trigger] t[i] == '&' implies entity_at(t, i) by {
            if i < p.len() {
                assert(t[i] == p[i]);
                assert(entity_at(p, i));
                if i + 4 <= p.len() {
                    assert(t.subrange(i, i + 4) =~= p.subrange(i, i + 4));
                }
                if i + 5 <= p.len() {
                    assert(t.subrange(i, i + 5) =~= p.subrange(i, i + 5));
                }
                if i + 6 <= p.len() {
                    assert(t.subrange(i, i + 6) =~= p.subrange(i, i + 6));
                }
            } else {
                assert(t[i] == q[i - p.len()]);
                assert(i == p.len());
                assert(t.subrange(i, t.len() as int) =~= q);
                assert(t.subrange(i, i + q.len()) =~= q);
            }
        }
    }
}

/// `value` with `& < > " '` written as XML entities.
pub fn xml_escape(value: &str) -> (r: String)
    ensures
        r@ == xml_escaped(value@),
{
    let cs = chars_of(value);
    let mut out = String::new();
    let mut k: usize = 0;
    while k < cs.len()
        invariant
            k <= cs@.len(),
            cs@ == value@,
            out@ == xml_escaped(cs@.take(k as int)),
        decreases cs@.len() - k,
    {
        let c = cs[k];
        let e: Vec<char> = if c == '&' {
            vec!['&', 'a', 'm', 'p', ';']
        } else if c == '<' {
            vec!['&', 'l', 't', ';']
        } else if c == '>' {
            vec!['&', 'g', 't', ';']
        } else if c == '"' {
            vec!['&', 'q', 'u', 'o', 't', ';']
        } else if c == '\'' {
            vec!['&', 'a', 'p', 'o', 's', ';']
        } else {
            vec![c]
        };
        assert(e@ =~= xml_entity(c));
        push_chars(&mut out, &e);
        assert(cs@.take(k + 1).drop_last() =~= cs@.take(k as int));
        k = k + 1;
    }
    assert(cs@.take(cs@.len() as int) =~= cs@);
    out
}

/// How `c` is written inside a single-quoted shell word.
pub open spec fn sh_quoted_char(c: char) -> Seq<char> {
    if c == '\'' {
        seq!['\'', '\\', '\'', '\'']
    } else {
        seq![c]
    }
}

/// `s` with each `'` written as `'\''`, for use between single quotes.
pub open spec fn sh_quoted(s: Seq<char>) -> Seq<char>
    decreases s.len(),
{
    if s.len() == 0 {
        seq![]
    } else {
        sh_quoted(s.drop_last()) + sh_quoted_char(s.last())
    }
}

/// `value` with each `'` written as `'\''`.
pub fn sh_single_quote_body(value: &str) -> (r: String)
    ensures
        r@ == sh_quoted(value@),
{
    let cs = chars_of(value);
    let mut out = String::new();
    let mut k: usize = 0;
    while k < cs.len()
        invariant
            k <= cs@.len(),
            cs@ == value@,
            out@ == sh_quoted(cs@.take(k as int)),
        decreases cs@.len() - k,
    {
        let c = cs[k];
        let e: Vec<char> = if c == '\'' {
            vec!['\'', '\\', '\'', '\'']
        } else {
            vec![c]
        };
        assert(e@ =~= sh_quoted_char(c));
        push_chars(&mut out, &e);
        assert(cs@.take(k + 1).drop_last() =~= cs@.take(k as int));
        k = k + 1;
    }
    assert(cs@.take(cs@.len() as int) =~= cs@);
    out
}

/// `c` followed by the text `r`, if `r` was read.
pub open spec fn prepend(c: char, r: Option<Seq<char>>) -> Option<Seq<char>> {
    match r {
        Some(v) => Some(seq![c] + v),
        None => None,
    }
}

/// The value that a shell gives the word `t` (single-quoted runs, backslash
/// escapes outside quotes, other characters as they are), read from its
/// start inside quotes when `quoted`; `None` where a quote is left open.
pub open spec fn sh_word_value(t: Seq<char>, quoted: bool) -> Option<Seq<char>>
    decreases t.len(),
{
    if t.len() == 0 {
        if quoted {
            None
        } else {
            Some(seq![])
        }
    } else if quoted {
        if t[0] == '\'' {
            sh_word_value(t.drop_first(), false)
        } else {
            prepend(t[0], sh_word_value(t.drop_first(), true))
        }
    } else if t[0] == '\'' {
        sh_word_value(t.drop_first(), true)
    } else if t[0] == '\\' && t.len() >= 2 {
        prepend(t[1], sh_word_value(t.skip(2), false))
    } else {
        prepend(t[0], sh_word_value(t.drop_first(), false))
    }
}

/// `v` followed by the text `r`, if `r` was read.
pub open spec fn prepend_all(v: Seq<char>, r: Option<Seq<char>>) -> Option<Seq<char>> {
    match r {
        Some(w) => Some(v + w),
        None => None,
    }
}

proof fn lemma_sh_quoted_first(s: Seq<char>)
    requires
        s.len() > 0,
    ensures
        sh_quoted(s) == sh_quoted_char(s[0]) + sh_quoted(s.drop_first()),
    decreases s.len(),
{
    if s.len() == 1 {
        assert(s.drop_last() =~= seq![]);
        assert(s.drop_first() =~= seq![]);
        assert(sh_quoted(s.drop_last()) =~= seq![]);
        assert(sh_quoted_char(s[0]) + seq![] =~= sh_quoted_char(s[0]));
    } else {
        lemma_sh_quoted_first(s.drop_last());
        assert(s.drop_last()[0] == s[0]);
        assert(s.drop_last().drop_first() =~= s.drop_first().drop_last());
        assert(s.drop_first().last() == s.last());
        assert(sh_quoted(s.drop_first()) == sh_quoted(s.drop_first().drop_last()) + sh_quoted_char(s.drop_first().last()));
        assert(sh_quoted(s) =~= sh_quoted_char(s[0]) + sh_quoted(s.drop_first()));
    }
}

proof fn lemma_sh_quoted_reads_back(s: Seq<char>, rest: Seq<char>)
    ensures
        sh_word_value(sh_quoted(s) + rest, true) == prepend_all(s, sh_word_value(rest, true)),
    decreases s.len(),
{
    if s.len() == 0 {
        assert(sh_quoted(s) + rest =~= rest);
        match sh_word_value(rest, true) {
            Some(w) => {
                assert(s + w =~= w);
            },
            None => {},
        }
    } else {
        lemma_sh_quoted_first(s);
        lemma_sh_quoted_reads_back(s.drop_first(), rest);
        let tail = sh_quoted(s.drop_first()) + rest;
        let t = sh_quoted(s) + rest;
        assert(t =~= sh_quoted_char(s[0]) + tail);
        if s[0] == '\'' {
            assert(t[0] == '\'');
            let t1 = t.drop_first();
            assert(t1 =~= seq!['\\', '\'', '\''] + tail);
            assert(t1[0] == '\\' && t1[1] == '\'');
            let t3 = t1.skip(2);
            assert(t3 =~= seq!['\''] + tail);
            assert(t3.drop_first() =~= tail);
            assert(sh_word_value(t3, false) == sh_word_value(tail, true));
            assert(sh_word_value(t1, false) == prepend('\'', sh_word_value(t3, false)));
            assert(sh_word_value(t, true) == sh_word_value(t1, false));
        } else {
            assert(t[0] == s[0]);
            assert(t.drop_first() =~= tail);
            assert(sh_word_value(t, true) == prepend(s[0], sh_word_value(tail, true)));
        }
        match sh_word_value(rest, true) {
            Some(w) => {
                assert(seq![s[0]] + (s.drop_first() + w) =~= s + w);
            },
            None => {},
        }
    }
}

/// Between single quotes, `sh_quoted(s)` is read back by the shell as
/// exactly `s`, whatever quotes `s` holds.
pub proof fn lemma_sh_quoted_word(s: Seq<char>)
    ensures
        sh_word_value(seq!['\''] + sh_quoted(s) + seq!['\''], false) == Some(s),
{
    let t = seq!['\''] + sh_quoted(s) + seq!['\''];
    assert(t[0] == '\'');
    assert(t.drop_first() =~= sh_quoted(s) + seq!['\'']);
    lemma_sh_quoted_reads_back(s, seq!['\'']);
    let q: Seq<char> = seq!['\''];
    assert(q[0] == '\'');
    assert(q.drop_first() =~= Seq::<char>::empty());
    assert(sh_word_value(q, true) == sh_word_value(q.drop_first(), false));
    assert(s + Seq::<char>::empty() =~= s);
}

/// The launchd label of the task with identifier `id`.
pub open spec fn launch_agent_label_text(id: Seq<char>) -> Seq<char> {
    "com.termalm.task."@ + id
}

/// The launchd label of a task.
pub fn launch_agent_label(id: &str) -> (r: String)
    ensures
        r@ == launch_agent_label_text(id@),
{
    let mut s = owned("com.termalm.task.");
    s.append(id);
    s
}

/// The property list of the launch agent that runs `command` at login,
/// kept alive when `keep_alive`.
pub open spec fn launch_agent_plist_text(label: Seq<char>, command: Seq<char>, keep_alive: bool) -> Seq<char> {
    "<?xml version=\"1.0\" encoding=\"UTF-8\"?>\n<!DOCTYPE plist PUBLIC \"-//Apple//DTD PLIST 1.0//EN\" \"http://www.apple.com/DTDs/PropertyList-1.0.dtd\">\n<plist version=\"1.0\">\n<dict>\n  <key>Label</key><string>"@
        + label
        + "</string>\n  <key>ProgramArguments</key>\n  <array><string>/bin/sh</string><string>-lc</string><string>"@
        + xml_escaped(command)
        + "</string></array>\n  <key>RunAtLoad</key><true/>\n  <key>KeepAlive</key><"@
        + (if keep_alive { "true"@ } else { "false"@ })
        + "/>\n</dict>\n</plist>\n"@
}

/// `part` occurs in `t` as a run of consecutive characters.
pub open spec fn contains_text(t: Seq<char>, part: Seq<char>) -> bool {
    exists|i: int| 0 <= i && i + part.len() <= t.len() && #[trigger] t.subrange(i, i + part.len()) == part
}

/// Every launch agent starts its task at login (`RunAtLoad` true, whatever
/// `keep_alive` is), and keeps it alive exactly as `keep_alive` asks.
pub proof fn lemma_launch_agent_starts_at_login(label: Seq<char>, command: Seq<char>, keep_alive: bool)
    ensures
        contains_text(launch_agent_plist_text(label, command, keep_alive), "<key>RunAtLoad</key><true/>"@),
        keep_alive ==> contains_text(
            launch_agent_plist_text(label, command, keep_alive),
            "<key>KeepAlive</key><true/>"@,
        ),
        !keep_alive ==> contains_text(
            launch_agent_plist_text(label, command, keep_alive),
            "<key>KeepAlive</key><false/>"@,
        ),
{
    let pre = "<?xml version=\"1.0\" encoding=\"UTF-8\"?>\n<!DOCTYPE plist PUBLIC \"-//Apple//DTD PLIST 1.0//EN\" \"http://www.apple.com/DTDs/PropertyList-1.0.dtd\">\n<plist version=\"1.0\">\n<dict>\n  <key>Label</key><string>"@
        + label
        + "</string>\n  <key>ProgramArguments</key>\n  <array><string>/bin/sh</string><string>-lc</string><string>"@
        + xml_escaped(command);
    let p3 = "</string></array>\n  <key>RunAtLoad</key><true/>\n  <key>KeepAlive</key><"@;
    let k = if keep_alive { "true"@ } else { "false"@ };
    let p4 = "/>\n</dict>\n</plist>\n"@;
    let t = launch_agent_plist_text(label, command, keep_alive);
    let seg = p3 + k + p4;
    assert(t =~= pre + seg);
    reveal_strlit("</string></array>\n  <key>RunAtLoad</key><true/>\n  <key>KeepAlive</key><");
    reveal_strlit("true");
    reveal_strlit("false");
    reveal_strlit("/>\n</dict>\n</plist>\n");
    reveal_strlit("<key>RunAtLoad</key><true/>");
    reveal_strlit("<key>KeepAlive</key><true/>");
    reveal_strlit("<key>KeepAlive</key><false/>");
    let n: int = pre.len() as int;
    let run = "<key>RunAtLoad</key><true/>"@;
    assert(seg.subrange(20, 47) =~= run);
    assert(t.subrange(n + 20, n + 47) =~= seg.subrange(20, 47));
    assert(t.subrange(n + 20, n + 20 + run.len()) == run);
    if keep_alive {
        let ka = "<key>KeepAlive</key><true/>"@;
        assert(seg.subrange(50, 77) =~= ka);
        assert(t.subrange(n + 50, n + 77) =~= seg.subrange(50, 77));
        assert(t.subrange(n + 50, n + 50 + ka.len()) == ka);
    } else {
        let ka = "<key>KeepAlive</key><false/>"@;
        assert(seg.subrange(50, 78) =~= ka);
        assert(t.subrange(n + 50, n + 78) =~= seg.subrange(50, 78));
        assert(t.subrange(n + 50, n + 50 + ka.len()) == ka);
    }
}

/// The launch agent property list of `task`.
pub fn launch_agent_plist(task: &Task) -> (r: String)
    ensures
        r@ == launch_agent_plist_text(
            launch_agent_label_text(task.id@),
            task.command@,
            task.auto_restart,
        ),
        contains_text(r@, "<key>RunAtLoad</key><true/>"@),
        task.auto_restart ==> contains_text(r@, "<key>KeepAlive</key><true/>"@),
        !task.auto_restart ==> contains_text(r@, "<key>KeepAlive</key><false/>"@),
{
    proof {
        lemma_launch_agent_starts_at_login(
            launch_agent_label_text(task.id@),
            task.command@,
            task.auto_restart,
        );
    }
    let label = launch_agent_label(task.id.as_str());
    let mut s = owned(
        "<?xml version=\"1.0\" encoding=\"UTF-8\"?>\n<!DOCTYPE plist PUBLIC \"-//Apple//DTD PLIST 1.0//EN\" \"http://www.apple.com/DTDs/PropertyList-1.0.dtd\">\n<plist version=\"1.0\">\n<dict>\n  <key>Label</key><string>",
    );
    s.append(label.as_str());
    s.append(
        "</string>\n  <key>ProgramArguments</key>\n  <array><string>/bin/sh</string><string>-lc</string><string>",
    );
    let command = xml_escape(task.command.as_str());
    s.append(command.as_str());
    s.append("</string></array>\n  <key>RunAtLoad</key><true/>\n  <key>KeepAlive</key><");
    if task.auto_restart {
        s.append("true");
    } else {
        s.append("false");
    }
    s.append("/>\n</dict>\n</plist>\n");
    s
}

/// The systemd user unit that runs `command` when the user logs in,
/// restarted always or never.
pub open spec fn systemd_unit_text(name: Seq<char>, command: Seq<char>, restart: bool) -> Seq<char> {
    "[Unit]\nDescription=TeRmalM task "@ + name + "\n\n[Service]\nType=simple\nExecStart=/bin/sh -lc '"@
        + sh_quoted(command) + "'\nRestart="@ + (if restart { "always"@ } else { "no"@ })
        + "\n\n[Install]\nWantedBy=default.target\n"@
}

/// The systemd user unit of `task`.
pub fn systemd_unit(task: &Task) -> (r: String)
    ensures
        r@ == systemd_unit_text(task.name@, task.command@, task.auto_restart),
{
    let mut s = owned("[Unit]\nDescription=TeRmalM task ");
    s.append(task.name.as_str());
    s.append("\n\n[Service]\nType=simple\nExecStart=/bin/sh -lc '");
    let command = sh_single_quote_body(task.command.as_str());
    s.append(command.as_str());
    s.append("'\nRestart=");
    if task.auto_restart {
        s.append("always");
    } else {
        s.append("no");
    }
    s.append("\n\n[Install]\nWantedBy=default.target\n");
    s
}

/// The file name of the systemd unit of the task with identifier `id`.
pub open spec fn systemd_unit_name_text(id: Seq<char>) -> Seq<char> {
    "termalm-"@ + id + ".service"@
}

/// The file name of the systemd unit of a task.
pub fn systemd_unit_name(id: &str) -> (r: String)
    ensures
        r@ == systemd_unit_name_text(id@),
{
    let mut s = owned("termalm-");
    s.append(id);
    s.append(".service");
    s
}

/// The arguments of `schtasks` that register the task with identifier
/// `id` to run `command` at logon.
pub open spec fn scheduled_task_args(id: Seq<char>, command: Seq<char>) -> Seq<Seq<char>> {
    seq![
        "/Create"@,
        "/SC"@,
        "ONLOGON"@,
        "/TN"@,
        "TeRmalM-"@ + id,
        "/TR"@,
        "cmd /C "@ + command,
        "/F"@,
    ]
}

/// The `schtasks` command that registers `task`.
pub fn scheduled_task_command(task: &Task) -> (c: CommandSpec)
    ensures
        c.program@ == "schtasks"@,
        texts(c.args@) == scheduled_task_args(task.id@, task.command@),
        c.cwd is None,
{
    let mut name = owned("TeRmalM-");
    name.append(task.id.as_str());
    let mut run = owned("cmd /C ");
    run.append(task.command.as_str());
    let mut args = Vec::new();
    args.push(owned("/Create"));
    args.push(owned("/SC"));
    args.push(owned("ONLOGON"));
    args.push(owned("/TN"));
    args.push(name);
    args.push(owned("/TR"));
    args.push(run);
    args.push(owned("/F"));
    assert(texts(args@) =~= scheduled_task_args(task.id@, task.command@));
    CommandSpec { program: owned("schtasks"), args, cwd: None }
}

/// The result of `schtasks`: an error unless it succeeded.
pub fn scheduled_task_outcome(success: bool) -> (r: Result<(), AppError>)
    ensures
        success ==> r is Ok,
        !success ==> (r matches Err(e) && message(e) == "failed to create Windows scheduled task"@),
{
    if success {
        Ok(())
    } else {
        Err(AppError::Message(owned("failed to create Windows scheduled task")))
    }
}

/// The arguments of `systemctl` that enable the user unit of the task with
/// identifier `id`, so that it starts when the user's session starts.
pub open spec fn systemd_enable_args(id: Seq<char>) -> Seq<Seq<char>> {
    seq!["--user"@, "enable"@, systemd_unit_name_text(id)]
}

/// The `systemctl --user enable` command for the unit of `task`.
pub fn systemd_enable_command(task: &Task) -> (c: CommandSpec)
    ensures
        c.program@ == "systemctl"@,
        texts(c.args@) == systemd_enable_args(task.id@),
        c.cwd is None,
{
    let mut args = Vec::new();
    args.push(owned("--user"));
    args.push(owned("enable"));
    args.push(systemd_unit_name(task.id.as_str()));
    assert(texts(args@) =~= systemd_enable_args(task.id@));
    CommandSpec { program: owned("systemctl"), args, cwd: None }
}

/// The result of enabling a systemd unit: an error unless it succeeded.
pub fn systemd_enable_outcome(success: bool) -> (r: Result<(), AppError>)
    ensures
        success ==> r is Ok,
        !success ==> (r matches Err(e) && message(e) == "failed to enable systemd user service"@),
{
    if success {
        Ok(())
    } else {
        Err(AppError::Message(owned("failed to enable systemd user service")))
    }
}

/// What registering a task with the system takes.
pub enum AutostartPlan {
    /// Write `contents` to `file_name` in the directory `dir`, a path of
    /// components under the home directory (created where missing), then
    /// run `then_run` where there is one.
    WriteFile { dir: Vec<String>, file_name: String, contents: String, then_run: Option<CommandSpec> },
    /// Run a command.
    Run(CommandSpec),
    /// Nothing to do on this platform.
    Nothing,
}

/// How `task` is registered on `platform`: a launch agent under
/// `~/Library/LaunchAgents` on macOS (loaded at login); on Linux a user unit
/// under `~/.config/systemd/user`, then enabled with
/// `systemctl --user enable`; a scheduled task on Windows.
pub fn autostart_plan(task: &Task, platform: Platform) -> (p: AutostartPlan)
    ensures
        platform == Platform::Macos ==> (p matches AutostartPlan::WriteFile { dir, file_name, contents, then_run }
            && then_run is None && texts(dir@) == seq!["Library"@, "LaunchAgents"@]
            && file_name@ == launch_agent_label_text(task.id@) + ".plist"@
            && contents@ == launch_agent_plist_text(
            launch_agent_label_text(task.id@),
            task.command@,
            task.auto_restart,
        )),
        platform == Platform::Linux ==> (p matches AutostartPlan::WriteFile { dir, file_name, contents, then_run }
            && texts(dir@) == seq![".config"@, "systemd"@, "user"@]
            && file_name@ == systemd_unit_name_text(task.id@)
            && contents@ == systemd_unit_text(task.name@, task.command@, task.auto_restart)
            && (then_run matches Some(c) && c.program@ == "systemctl"@
            && texts(c.args@) == systemd_enable_args(task.id@) && c.cwd is None)),
        platform == Platform::Windows ==> (p matches AutostartPlan::Run(c) && c.program@ == "schtasks"@
            && texts(c.args@) == scheduled_task_args(task.id@, task.command@) && c.cwd is None),
        platform == Platform::Other ==> p is Nothing,
{
    match platform {
        Platform::Macos => {
            let mut dir = Vec::new();
            dir.push(owned("Library"));
            dir.push(owned("LaunchAgents"));
            assert(texts(dir@) =~= seq!["Library"@, "LaunchAgents"@]);
            let mut file_name = launch_agent_label(task.id.as_str());
            file_name.append(".plist");
            AutostartPlan::WriteFile {
                dir,
                file_name,
                contents: launch_agent_plist(task),
                then_run: None,
            }
        },
        Platform::Linux => {
            let mut dir = Vec::new();
            dir.push(owned(".config"));
            dir.push(owned("systemd"));
            dir.push(owned("user"));
            assert(texts(dir@) =~= seq![".config"@, "systemd"@, "user"@]);
            AutostartPlan::WriteFile {
                dir,
                file_name: systemd_unit_name(task.id.as_str()),
                contents: systemd_unit(task),
                then_run: Some(systemd_enable_command(task)),
            }
        },
        Platform::Windows => AutostartPlan::Run(scheduled_task_command(task)),
        Platform::Other => AutostartPlan::Nothing,
    }
}

} // verus!

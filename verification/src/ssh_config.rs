//! Host aliases read from the text of an OpenSSH client configuration file.
use vstd::prelude::*;
use vstd::utf8::encode_utf8;

use crate::order::{bytes_less, lex_less, lemma_lex_irreflexive, lemma_lex_total, lemma_lex_transitive};
use crate::text::{
    before_hash, char_rows, chars_of, lemma_lines_insert, lines, lines_state, opt_chars, split_lines,
    split_words, string_from_chars, strip_comment, strip_cr, trim, trim_chars, words,
};

verus! {

/// A host alias of the configuration, with the settings given for it.
#[derive(Debug, Clone)]
pub struct SshHost {
    pub alias: String,
    pub hostname: Option<String>,
    pub user: Option<String>,
    pub port: Option<String>,
}

/// The value of an `SshHost`, its strings taken as characters.
pub struct HostView {
    pub alias: Seq<char>,
    pub hostname: Option<Seq<char>>,
    pub user: Option<Seq<char>>,
    pub port: Option<Seq<char>>,
}

impl View for SshHost {
    type V = HostView;

    open spec fn view(&self) -> HostView {
        HostView {
            alias: self.alias@,
            hostname: opt_chars(self.hostname),
            user: opt_chars(self.user),
            port: opt_chars(self.port),
        }
    }
}

/// Views of a sequence of hosts.
pub open spec fn host_views(v: Seq<SshHost>) -> Seq<HostView> {
    v.map_values(|h: SshHost| h@)
}

/// A setting of a host that a configuration line can give.
#[derive(PartialEq, Eq, Structural, Clone, Copy)]
pub enum HostField {
    HostName,
    User,
    Port,
}

/// `h` with `field` set to `value`.
pub open spec fn with_field(h: HostView, field: HostField, value: Option<Seq<char>>) -> HostView {
    match field {
        HostField::HostName => HostView { hostname: value, ..h },
        HostField::User => HostView { user: value, ..h },
        HostField::Port => HostView { port: value, ..h },
    }
}

/// Every host of `hosts` with `field` set to `value`.
pub open spec fn set_all(hosts: Seq<HostView>, field: HostField, value: Option<Seq<char>>) -> Seq<
    HostView,
> {
    hosts.map_values(|h: HostView| with_field(h, field, value))
}

fn clone_opt(o: &Option<String>) -> (r: Option<String>)
    ensures
        opt_chars(r) == opt_chars(*o),
{
    match o {
        Some(s) => Some(s.clone()),
        None => None,
    }
}

/// Sets `field` to `value` in every host of `hosts`, the hosts that the
/// latest `Host` line opened.
pub fn set_current_field(hosts: &mut Vec<SshHost>, field: HostField, value: &Option<String>)
    ensures
        host_views(final(hosts)@) == set_all(host_views(old(hosts)@), field, opt_chars(*value)),
{
    let n = hosts.len();
    let mut k: usize = 0;
    while k < n
        invariant
            n == hosts@.len() == old(hosts)@.len(),
            k <= n,
            forall|i: int|
                0 <= i < k ==> #[trigger] hosts@[i]@ == with_field(
                    old(hosts)@[i]@,
                    field,
                    opt_chars(*value),
                ),
            forall|i: int| k <= i < n ==> #[trigger] hosts@[i] == old(hosts)@[i],
        decreases n - k,
    {
        let v = clone_opt(value);
        let mut h = hosts.remove(k);
        match field {
            HostField::HostName => {
                h.hostname = v;
            },
            HostField::User => {
                h.user = v;
            },
            HostField::Port => {
                h.port = v;
            },
        }
        hosts.insert(k, h);
        k = k + 1;
    }
    assert(host_views(hosts@) =~= set_all(host_views(old(hosts)@), field, opt_chars(*value)));
}

/// `c` with ASCII upper case letters mapped to lower case.
pub open spec fn ascii_lower(c: char) -> char {
    if 'A' <= c <= 'Z' {
        ((c as u32) + 32) as char
    } else {
        c
    }
}

/// The kind of a configuration line, by its first word.
#[derive(PartialEq, Eq, Structural, Clone, Copy)]
pub enum KeyKind {
    Host,
    Setting(HostField),
    Other,
}

/// `key`, compared without regard to ASCII case, equals the lower-case `word`.
pub open spec fn key_is(key: Seq<char>, word: Seq<char>) -> bool {
    key.len() == word.len() && forall|i: int| 0 <= i < key.len() ==> ascii_lower(#[trigger] key[i]) == word[i]
}

/// What a line with first word `key` does.
pub open spec fn key_kind(key: Seq<char>) -> KeyKind {
    if key_is(key, seq!['h', 'o', 's', 't']) {
        KeyKind::Host
    } else if key_is(key, seq!['h', 'o', 's', 't', 'n', 'a', 'm', 'e']) {
        KeyKind::Setting(HostField::HostName)
    } else if key_is(key, seq!['u', 's', 'e', 'r']) {
        KeyKind::Setting(HostField::User)
    } else if key_is(key, seq!['p', 'o', 'r', 't']) {
        KeyKind::Setting(HostField::Port)
    } else {
        KeyKind::Other
    }
}

fn key_matches(key: &Vec<char>, word: &Vec<char>) -> (r: bool)
    requires
        forall|i: int| 0 <= i < word@.len() ==> 'a' <= #[trigger] word@[i] <= 'z',
    ensures
        r == key_is(key@, word@),
{
    if key.len() != word.len() {
        return false;
    }
    let mut i: usize = 0;
    while i < key.len()
        invariant
            i <= key@.len() == word@.len(),
            forall|j: int| 0 <= j < word@.len() ==> 'a' <= #[trigger] word@[j] <= 'z',
            forall|j: int| 0 <= j < i ==> ascii_lower(#[trigger] key@[j]) == word@[j],
        decreases key@.len() - i,
    {
        let c = key[i];
        let w = word[i];
        let same = c == w || ('A' <= c && c <= 'Z' && (c as u32) + 32 == (w as u32));
        assert(same == (ascii_lower(c) == w)) by {
            if 'A' <= c <= 'Z' {
                assert((((c as u32) + 32) as char) as u32 == (c as u32) + 32);
            }
        }
        if !same {
            return false;
        }
        i = i + 1;
    }
    true
}

fn classify_key(key: &Vec<char>) -> (r: KeyKind)
    ensures
        r == key_kind(key@),
{
    let host = vec!['h', 'o', 's', 't'];
    let hostname = vec!['h', 'o', 's', 't', 'n', 'a', 'm', 'e'];
    let user = vec!['u', 's', 'e', 'r'];
    let port = vec!['p', 'o', 'r', 't'];
    assert(host@ =~= seq!['h', 'o', 's', 't']);
    assert(hostname@ =~= seq!['h', 'o', 's', 't', 'n', 'a', 'm', 'e']);
    assert(user@ =~= seq!['u', 's', 'e', 'r']);
    assert(port@ =~= seq!['p', 'o', 'r', 't']);
    if key_matches(key, &host) {
        KeyKind::Host
    } else if key_matches(key, &hostname) {
        KeyKind::Setting(HostField::HostName)
    } else if key_matches(key, &user) {
        KeyKind::Setting(HostField::User)
    } else if key_matches(key, &port) {
        KeyKind::Setting(HostField::Port)
    } else {
        KeyKind::Other
    }
}

/// A `Host` line may name `alias`: it holds no `*` or `?` and is not `!`.
pub open spec fn alias_allowed(alias: Seq<char>) -> bool {
    !alias.contains('*') && !alias.contains('?') && alias != seq!['!']
}

/// A host with no settings yet.
pub open spec fn new_host(alias: Seq<char>) -> HostView {
    HostView { alias, hostname: None, user: None, port: None }
}

/// The hosts that a `Host` line with these values opens, in order.
pub open spec fn host_block(values: Seq<Seq<char>>) -> Seq<HostView>
    decreases values.len(),
{
    if values.len() == 0 {
        seq![]
    } else {
        let prev = host_block(values.drop_last());
        if alias_allowed(values.last()) {
            prev.push(new_host(values.last()))
        } else {
            prev
        }
    }
}

/// Hosts whose blocks are closed, and hosts of the block still open.
pub struct ParseState {
    pub hosts: Seq<HostView>,
    pub current: Seq<HostView>,
}

/// The first of `values`, if there is one.
pub open spec fn first_value(values: Seq<Seq<char>>) -> Option<Seq<char>> {
    if values.len() > 0 {
        Some(values[0])
    } else {
        None
    }
}

/// The state after the configuration line `raw`: its comment (from the
/// first `#`) dropped and the rest trimmed, a blank line changes nothing;
/// else the first word, without regard to ASCII case, says what to do.
pub open spec fn apply_line(st: ParseState, raw: Seq<char>) -> ParseState {
    let line = trim(before_hash(raw));
    let ws = words(line);
    if line.len() == 0 || ws.len() == 0 {
        st
    } else {
        let values = ws.drop_first();
        match key_kind(ws[0]) {
            KeyKind::Host => ParseState { hosts: st.hosts + st.current, current: host_block(values) },
            KeyKind::Setting(field) => ParseState {
                hosts: st.hosts,
                current: set_all(st.current, field, first_value(values)),
            },
            KeyKind::Other => st,
        }
    }
}

/// The state after the lines `ls`, in order.
pub open spec fn apply_lines(ls: Seq<Seq<char>>) -> ParseState
    decreases ls.len(),
{
    if ls.len() == 0 {
        ParseState { hosts: seq![], current: seq![] }
    } else {
        apply_line(apply_lines(ls.drop_last()), ls.last())
    }
}

/// Every host that the configuration `text` names, in the order named,
/// before sorting and removing repeated aliases.
pub open spec fn named_hosts(text: Seq<char>) -> Seq<HostView> {
    let st = apply_lines(lines(text));
    st.hosts + st.current
}

/// `a` sorts strictly before `b` by alias, as `String` orders them.
pub open spec fn alias_less(a: HostView, b: HostView) -> bool {
    lex_less(encode_utf8(a.alias), encode_utf8(b.alias))
}

/// `raw[i]` is the first host of `raw` with its alias.
pub open spec fn first_of_alias(raw: Seq<HostView>, i: int) -> bool {
    &&& 0 <= i < raw.len()
    &&& forall|j: int| 0 <= j < i ==> (#[trigger] raw[j]).alias != raw[i].alias
}

/// Aliases strictly increase along `r`.
pub open spec fn strictly_sorted(r: Seq<HostView>) -> bool {
    forall|i: int, j: int| 0 <= i < j < r.len() ==> alias_less(#[trigger] r[i], #[trigger] r[j])
}

/// `r` is `raw` sorted by alias with each repeated alias dropped after its
/// first host (a stable sort, then `dedup_by` on the alias).
pub open spec fn sorted_first_hosts(r: Seq<HostView>, raw: Seq<HostView>) -> bool {
    &&& strictly_sorted(r)
    &&& forall|h: HostView|
        r.contains(h) <==> exists|i: int| #[trigger] first_of_alias(raw, i) && raw[i] == h
}

proof fn lemma_alias_order(a: HostView, b: HostView)
    ensures
        a.alias != b.alias ==> (alias_less(a, b) || alias_less(b, a)),
        !(alias_less(a, b) && alias_less(b, a)),
        !alias_less(a, a),
        a.alias == b.alias ==> !alias_less(a, b),
{
    vstd::utf8::encode_utf8_decode_utf8(a.alias);
    vstd::utf8::encode_utf8_decode_utf8(b.alias);
    lemma_lex_total(encode_utf8(a.alias), encode_utf8(b.alias));
    lemma_lex_irreflexive(encode_utf8(a.alias));
}

fn alias_before(a: &SshHost, b: &SshHost) -> (r: bool)
    ensures
        r == alias_less(a@, b@),
{
    bytes_less(a.alias.as_str().as_bytes(), b.alias.as_str().as_bytes())
}

/// Inserts `h` into `out` at its place by alias, unless a host with its
/// alias is already there.
fn insert_sorted(out: &mut Vec<SshHost>, h: SshHost)
    requires
        strictly_sorted(host_views(old(out)@)),
    ensures
        strictly_sorted(host_views(final(out)@)),
        (exists|i: int| 0 <= i < old(out)@.len() && (#[trigger] old(out)@[i])@.alias == h@.alias)
            ==> host_views(final(out)@) == host_views(old(out)@),
        !(exists|i: int| 0 <= i < old(out)@.len() && (#[trigger] old(out)@[i])@.alias == h@.alias)
            ==> forall|g: HostView|
            host_views(final(out)@).contains(g) <==> (host_views(old(out)@).contains(g) || g
                == h@),
{
    let ghost old_v = host_views(out@);
    let n = out.len();
    let mut p: usize = 0;
    while p < n && alias_before(&out[p], &h)
        invariant
            n == out@.len(),
            out@ == old(out)@,
            old_v == host_views(out@),
            p <= n,
            forall|q: int| 0 <= q < p ==> alias_less(#[trigger] old_v[q], h@),
        decreases n - p,
    {
        p = p + 1;
    }
    if p < n && out[p].alias == h.alias {
        return;
    }
    proof {
        assert forall|i: int| 0 <= i < n implies (#[trigger] out@[i])@.alias != h@.alias by {
            assert(old_v[i] == out@[i]@);
            if i < p {
                lemma_alias_order(old_v[i], h@);
            } else if i > p {
                lemma_alias_order(old_v[p as int], h@);
                lemma_alias_order(old_v[i], h@);
                lemma_alias_order(old_v[p as int], old_v[i]);
                if alias_less(h@, old_v[p as int]) {
                    lemma_lex_transitive(
                        encode_utf8(h@.alias),
                        encode_utf8(old_v[p as int].alias),
                        encode_utf8(old_v[i].alias),
                    );
                }
            }
        }
    }
    out.insert(p, h);
    proof {
        let nv = host_views(out@);
        assert(nv =~= old_v.insert(p as int, h@));
        assert forall|i: int, j: int| 0 <= i < j < nv.len() implies alias_less(
            #[trigger] nv[i],
            #[trigger] nv[j],
        ) by {
            if p < n {
                lemma_alias_order(old_v[p as int], h@);
            }
            if j < p {
            } else if i < p && j == p {
            } else if i < p && j > p {
                assert(nv[j] == old_v[j - 1]);
                if j - 1 > i {
                    assert(alias_less(old_v[i], old_v[j - 1]));
                }
            } else if i == p {
                assert(nv[j] == old_v[j - 1]);
                if j - 1 > p {
                    assert(alias_less(old_v[p as int], old_v[j - 1]));
                    lemma_lex_transitive(
                        encode_utf8(h@.alias),
                        encode_utf8(old_v[p as int].alias),
                        encode_utf8(old_v[j - 1].alias),
                    );
                }
            } else {
                assert(nv[i] == old_v[i - 1]);
                assert(nv[j] == old_v[j - 1]);
            }
        }
        assert forall|g: HostView| nv.contains(g) <==> (old_v.contains(g) || g == h@) by {
            if nv.contains(g) {
                let k = choose|k: int| 0 <= k < nv.len() && nv[k] == g;
                if k < p {
                    assert(old_v[k] == g);
                } else if k > p {
                    assert(old_v[k - 1] == g);
                }
            }
            if old_v.contains(g) {
                let k = choose|k: int| 0 <= k < old_v.len() && old_v[k] == g;
                if k < p {
                    assert(nv[k] == g);
                } else {
                    assert(nv[k + 1] == g);
                }
            }
            if g == h@ {
                assert(nv[p as int] == g);
            }
        }
    }
}

proof fn lemma_first_alias(raw: Seq<HostView>, j: int) -> (i: int)
    requires
        0 <= j < raw.len(),
    ensures
        0 <= i <= j,
        first_of_alias(raw, i),
        raw[i].alias == raw[j].alias,
    decreases j,
{
    if first_of_alias(raw, j) {
        j
    } else {
        let j2 = choose|j2: int| 0 <= j2 < j && (#[trigger] raw[j2]).alias == raw[j].alias;
        lemma_first_alias(raw, j2)
    }
}

/// `raw` sorted by alias, each alias kept once with its first host.
pub fn sort_unique_aliases(raw: Vec<SshHost>) -> (r: Vec<SshHost>)
    ensures
        sorted_first_hosts(host_views(r@), host_views(raw@)),
{
    let ghost rv = host_views(raw@);
    let mut out: Vec<SshHost> = Vec::new();
    let mut rest = raw;
    let mut k: usize = 0;
    let n = rest.len();
    let ghost orig = rest@;
    // Taken from the back, so reverse first to keep the order of `raw`.
    let mut rev: Vec<SshHost> = Vec::new();
    while rest.len() > 0
        invariant
            rest@.len() + rev@.len() == n == orig.len(),
            forall|i: int| 0 <= i < rest@.len() ==> #[trigger] rest@[i] == orig[i],
            forall|i: int| 0 <= i < rev@.len() ==> #[trigger] rev@[i] == orig[n - 1 - i],
        decreases rest@.len(),
    {
        let h = rest.pop().unwrap();
        rev.push(h);
    }
    assert(host_views(orig) == rv);
    while k < n
        invariant
            k <= n == orig.len() == rev@.len() + k,
            rv == host_views(orig),
            forall|i: int| 0 <= i < rev@.len() ==> #[trigger] rev@[i] == orig[n - 1 - i],
            strictly_sorted(host_views(out@)),
            forall|g: HostView|
                host_views(out@).contains(g) <==> exists|i: int|
                    0 <= i < k && #[trigger] first_of_alias(rv, i) && rv[i] == g,
        decreases n - k,
    {
        let h = rev.pop().unwrap();
        assert(h == orig[k as int]);
        assert(h@ == rv[k as int]);
        let ghost before = host_views(out@);
        let ghost old_out = out@;
        let ghost seen = exists|i: int|
            0 <= i < before.len() && (#[trigger] old_out[i])@.alias == h@.alias;
        insert_sorted(&mut out, h);
        proof {
            let after = host_views(out@);
            if seen {
                let i = choose|i: int| 0 <= i < before.len() && (#[trigger] old_out[i])@.alias == h@.alias;
                assert(before[i] == old_out[i]@);
                assert(before.contains(before[i]));
                let i0 = choose|i0: int| 0 <= i0 < k && #[trigger] first_of_alias(rv, i0) && rv[i0] == before[i];
                assert(!first_of_alias(rv, k as int)) by {
                    assert(rv[i0].alias == rv[k as int].alias);
                }
                assert forall|g: HostView| after.contains(g) <==> exists|i: int|
                    0 <= i < k + 1 && #[trigger] first_of_alias(rv, i) && rv[i] == g by {
                    if exists|i: int| 0 <= i < k + 1 && #[trigger] first_of_alias(rv, i) && rv[i] == g {
                        let i1 = choose|i1: int| 0 <= i1 < k + 1 && #[trigger] first_of_alias(rv, i1) && rv[i1] == g;
                        assert(i1 < k);
                    }
                }
            } else {
                assert(first_of_alias(rv, k as int)) by {
                    assert forall|j: int| 0 <= j < k implies (#[trigger] rv[j]).alias != rv[k as int].alias by {
                        if rv[j].alias == rv[k as int].alias {
                            let i1 = lemma_first_alias(rv, j);
                            assert(before.contains(rv[i1]));
                            let q = choose|q: int| 0 <= q < before.len() && before[q] == rv[i1];
                            assert(before[q].alias == h@.alias);
                        }
                    }
                }
                assert forall|g: HostView| after.contains(g) <==> exists|i: int|
                    0 <= i < k + 1 && #[trigger] first_of_alias(rv, i) && rv[i] == g by {
                    if exists|i: int| 0 <= i < k + 1 && #[trigger] first_of_alias(rv, i) && rv[i] == g {
                        let i1 = choose|i1: int| 0 <= i1 < k + 1 && #[trigger] first_of_alias(rv, i1) && rv[i1] == g;
                        if i1 < k {
                            assert(before.contains(g));
                        }
                    }
                    if before.contains(g) {
                        let i1 = choose|i1: int| 0 <= i1 < k && #[trigger] first_of_alias(rv, i1) && rv[i1] == g;
                        assert(0 <= i1 < k + 1 && first_of_alias(rv, i1) && rv[i1] == g);
                    }
                    if g == h@ {
                        assert(first_of_alias(rv, k as int) && rv[k as int] == g);
                    }
                }
            }
        }
        k = k + 1;
    }
    proof {
        assert forall|g: HostView| host_views(out@).contains(g) <==> exists|i: int|
            #[trigger] first_of_alias(rv, i) && rv[i] == g by {
            if exists|i: int| #[trigger] first_of_alias(rv, i) && rv[i] == g {
                let i = choose|i: int| #[trigger] first_of_alias(rv, i) && rv[i] == g;
                assert(0 <= i < k && first_of_alias(rv, i) && rv[i] == g);
            }
        }
    }
    out
}


/// Every host of `hs` has an alias that a `Host` line may name.
pub open spec fn all_aliases_allowed(hs: Seq<HostView>) -> bool {
    forall|i: int| 0 <= i < hs.len() ==> alias_allowed(#[trigger] hs[i].alias)
}

proof fn lemma_host_block_allowed(values: Seq<Seq<char>>)
    ensures
        all_aliases_allowed(host_block(values)),
    decreases values.len(),
{
    if values.len() > 0 {
        lemma_host_block_allowed(values.drop_last());
    }
}

proof fn lemma_apply_lines_allowed(ls: Seq<Seq<char>>)
    ensures
        all_aliases_allowed(apply_lines(ls).hosts),
        all_aliases_allowed(apply_lines(ls).current),
    decreases ls.len(),
{
    if ls.len() > 0 {
        lemma_apply_lines_allowed(ls.drop_last());
        let st = apply_lines(ls.drop_last());
        let line = trim(before_hash(ls.last()));
        let ws = words(line);
        if line.len() > 0 && ws.len() > 0 {
            lemma_host_block_allowed(ws.drop_first());
            let all = st.hosts + st.current;
            assert forall|i: int| 0 <= i < all.len() implies alias_allowed(#[trigger] all[i].alias) by {
                if i >= st.hosts.len() {
                    assert(all[i] == st.current[i - st.hosts.len()]);
                }
            }
        }
    }
}

/// No host that a configuration names has an alias with `*` or `?`, or the
/// alias `!`: patterns and negations never become hosts.
pub proof fn lemma_named_hosts_are_plain(text: Seq<char>)
    ensures
        all_aliases_allowed(named_hosts(text)),
{
    let st = apply_lines(lines(text));
    lemma_apply_lines_allowed(lines(text));
    let all = st.hosts + st.current;
    assert forall|i: int| 0 <= i < all.len() implies alias_allowed(#[trigger] all[i].alias) by {
        if i >= st.hosts.len() {
            assert(all[i] == st.current[i - st.hosts.len()]);
        }
    }
}

/// A sorted, deduplicated host list of a configuration holds each alias
/// once, and no pattern or negated alias.
pub proof fn lemma_sorted_hosts_plain_and_unique(r: Seq<HostView>, text: Seq<char>)
    requires
        sorted_first_hosts(r, named_hosts(text)),
    ensures
        all_aliases_allowed(r),
        forall|i: int, j: int| 0 <= i < j < r.len() ==> (#[trigger] r[i]).alias != (#[trigger] r[j]).alias,
{
    let raw = named_hosts(text);
    lemma_named_hosts_are_plain(text);
    assert forall|i: int| 0 <= i < r.len() implies alias_allowed(#[trigger] r[i].alias) by {
        assert(r.contains(r[i]));
        let k = choose|k: int| #[trigger] first_of_alias(raw, k) && raw[k] == r[i];
    }
    assert forall|i: int, j: int| 0 <= i < j < r.len() implies (#[trigger] r[i]).alias != (#[trigger] r[j]).alias by {
        assert(alias_less(r[i], r[j]));
        lemma_alias_order(r[i], r[j]);
    }
}

/// A configuration line that changes nothing: blank once its comment is
/// dropped, or starting with a keyword other than `Host`, `HostName`,
/// `User` and `Port` (such as `IdentityFile`).
pub open spec fn ignored_line(raw: Seq<char>) -> bool {
    let line = trim(before_hash(raw));
    let ws = words(line);
    line.len() == 0 || ws.len() == 0 || key_kind(ws[0]) == KeyKind::Other
}

proof fn lemma_apply_lines_skip(p: Seq<Seq<char>>, l: Seq<char>, q: Seq<Seq<char>>)
    requires
        ignored_line(l),
    ensures
        apply_lines(p + seq![l] + q) == apply_lines(p + q),
    decreases q.len(),
{
    if q.len() == 0 {
        assert(p + seq![l] + q =~= p.push(l));
        assert(p.push(l).drop_last() =~= p);
        assert(p + q =~= p);
    } else {
        lemma_apply_lines_skip(p, l, q.drop_last());
        assert((p + seq![l] + q).drop_last() =~= p + seq![l] + q.drop_last());
        assert((p + q).drop_last() =~= p + q.drop_last());
        assert((p + seq![l] + q).last() == q.last());
        assert((p + q).last() == q.last());
    }
}

proof fn lemma_sorted_same_hosts(r1: Seq<HostView>, r2: Seq<HostView>)
    requires
        strictly_sorted(r1),
        strictly_sorted(r2),
        forall|h: HostView| r1.contains(h) <==> r2.contains(h),
    ensures
        r1 == r2,
    decreases r1.len(),
{
    if r1.len() == 0 {
        if r2.len() > 0 {
            assert(r2.contains(r2[0]));
        }
        assert(r1 =~= r2);
    } else {
        assert(r1.contains(r1[0]));
        let k = choose|k: int| 0 <= k < r2.len() && r2[k] == r1[0];
        assert(r2.contains(r2[0]));
        let m = choose|m: int| 0 <= m < r1.len() && r1[m] == r2[0];
        if k > 0 {
            assert(alias_less(r2[0], r2[k]));
            lemma_alias_order(r2[0], r2[k]);
            if m > 0 {
                assert(alias_less(r1[0], r1[m]));
            }
        }
        assert(r1[0] == r2[0]);
        let t1 = r1.drop_first();
        let t2 = r2.drop_first();
        assert forall|h: HostView| t1.contains(h) <==> t2.contains(h) by {
            if t1.contains(h) {
                let i = choose|i: int| 0 <= i < t1.len() && t1[i] == h;
                assert(r1[i + 1] == h);
                assert(r1.contains(h));
                let j = choose|j: int| 0 <= j < r2.len() && r2[j] == h;
                if j == 0 {
                    assert(alias_less(r1[0], r1[i + 1]));
                    lemma_alias_order(h, h);
                }
                assert(t2[j - 1] == h);
            }
            if t2.contains(h) {
                let i = choose|i: int| 0 <= i < t2.len() && t2[i] == h;
                assert(r2[i + 1] == h);
                assert(r2.contains(h));
                let j = choose|j: int| 0 <= j < r1.len() && r1[j] == h;
                if j == 0 {
                    assert(alias_less(r2[0], r2[i + 1]));
                    lemma_alias_order(h, h);
                }
                assert(t1[j - 1] == h);
            }
        }
        lemma_sorted_same_hosts(t1, t2);
        assert(r1 =~= seq![r1[0]] + t1);
        assert(r2 =~= seq![r2[0]] + t2);
    }
}

/// The sorted host list of a configuration is determined by the hosts it
/// names.
pub proof fn lemma_sorted_first_hosts_unique(r1: Seq<HostView>, r2: Seq<HostView>, raw: Seq<HostView>)
    requires
        sorted_first_hosts(r1, raw),
        sorted_first_hosts(r2, raw),
    ensures
        r1 == r2,
{
    lemma_sorted_same_hosts(r1, r2);
}

/// Adding a line that is blank, a comment, or that starts with a keyword
/// other than `Host`, `HostName`, `User` and `Port` anywhere between the
/// lines of a configuration leaves its host list as it was: only these
/// four keywords are read.
pub proof fn lemma_ignored_line_keeps_hosts(
    a: Seq<char>,
    l: Seq<char>,
    b: Seq<char>,
    r1: Seq<HostView>,
    r2: Seq<HostView>,
)
    requires
        a.len() == 0 || a.last() == '\n',
        !l.contains('\n'),
        ignored_line(strip_cr(l)),
        sorted_first_hosts(r1, named_hosts(a + b)),
        sorted_first_hosts(r2, named_hosts(a + l + seq!['\n'] + b)),
    ensures
        r1 == r2,
{
    lemma_lines_insert(a, l, b);
    let p = lines_state(a).0;
    let q = lines(b);
    lemma_apply_lines_skip(p, strip_cr(l), q);
    assert(named_hosts(a + b) == named_hosts(a + l + seq!['\n'] + b));
    lemma_sorted_first_hosts_unique(r1, r2, named_hosts(a + b));
}

/// A configuration line whose first word is `Host` (in any ASCII case),
/// once its comment is dropped.
pub open spec fn is_host_line(raw: Seq<char>) -> bool {
    let line = trim(before_hash(raw));
    let ws = words(line);
    line.len() > 0 && ws.len() > 0 && key_kind(ws[0]) == KeyKind::Host
}

proof fn lemma_closed_hosts_grow(p: Seq<Seq<char>>, q: Seq<Seq<char>>)
    ensures
        apply_lines(p).hosts.is_prefix_of(apply_lines(p + q).hosts),
    decreases q.len(),
{
    if q.len() == 0 {
        assert(p + q =~= p);
    } else {
        lemma_closed_hosts_grow(p, q.drop_last());
        assert((p + q).drop_last() =~= p + q.drop_last());
        let before = apply_lines(p + q.drop_last());
        let after = apply_lines(p + q);
        assert(after == apply_line(before, q.last()));
        let h = apply_lines(p).hosts;
        assert(before.hosts.subrange(0, h.len() as int) =~= h);
        if after.hosts != before.hosts {
            assert(after.hosts == before.hosts + before.current);
            assert(after.hosts.subrange(0, h.len() as int) =~= h);
        }
    }
}

/// A `Host` line closes the block that was open, whatever aliases it
/// names: every host listed for a configuration is still listed, with the
/// same settings, once a `Host` line and any further lines follow it.
/// Settings after that line never reach a host named before it.
pub proof fn lemma_host_line_closes_block(
    a: Seq<char>,
    l: Seq<char>,
    b: Seq<char>,
    r1: Seq<HostView>,
    r2: Seq<HostView>,
)
    requires
        a.len() == 0 || a.last() == '\n',
        !l.contains('\n'),
        is_host_line(strip_cr(l)),
        sorted_first_hosts(r1, named_hosts(a)),
        sorted_first_hosts(r2, named_hosts(a + l + seq!['\n'] + b)),
    ensures
        forall|h: HostView| r1.contains(h) ==> r2.contains(h),
{
    lemma_lines_insert(a, l, b);
    let p = lines_state(a).0;
    let lr = strip_cr(l);
    let q = lines(b);
    let n1 = named_hosts(a);
    let st = apply_lines(p);
    assert(p.push(lr).drop_last() =~= p);
    assert(apply_lines(p.push(lr)).hosts == st.hosts + st.current);
    assert(n1 == st.hosts + st.current);
    lemma_closed_hosts_grow(p.push(lr), q);
    assert(p.push(lr) + q =~= p + seq![lr] + q);
    let fin = apply_lines(p + seq![lr] + q);
    let n2 = named_hosts(a + l + seq!['\n'] + b);
    assert(n2 == fin.hosts + fin.current);
    assert forall|i: int| 0 <= i < n1.len() implies n2[i] == n1[i] by {
        assert(fin.hosts.subrange(0, n1.len() as int)[i] == n1[i]);
    }
    assert forall|h: HostView| r1.contains(h) implies r2.contains(h) by {
        let i = choose|i: int| #[trigger] first_of_alias(n1, i) && n1[i] == h;
        assert(first_of_alias(n2, i)) by {
            assert forall|j: int| 0 <= j < i implies (#[trigger] n2[j]).alias != n2[i].alias by {
                assert(n2[j] == n1[j]);
                assert(n1[j].alias != n1[i].alias);
            }
        }
        assert(n2[i] == h);
    }
}

fn alias_is_allowed(a: &Vec<char>) -> (r: bool)
    ensures
        r == alias_allowed(a@),
{
    let mut i: usize = 0;
    while i < a.len()
        invariant
            i <= a@.len(),
            forall|j: int| 0 <= j < i ==> (#[trigger] a@[j]) != '*' && a@[j] != '?',
        decreases a@.len() - i,
    {
        if a[i] == '*' || a[i] == '?' {
            assert(a@[i as int] == '*' ==> a@.contains('*'));
            assert(a@[i as int] == '?' ==> a@.contains('?'));
            return false;
        }
        i = i + 1;
    }
    if a.len() == 1 && a[0] == '!' {
        assert(a@ =~= seq!['!']);
        return false;
    }
    assert(a@ != seq!['!']) by {
        if a@ == seq!['!'] {
            assert(a@[0] == '!');
        }
    }
    true
}

/// The hosts that the `Host` line with words `ws` opens.
fn open_block(ws: &Vec<Vec<char>>) -> (r: Vec<SshHost>)
    requires
        ws@.len() > 0,
    ensures
        host_views(r@) == host_block(char_rows(ws@).drop_first()),
{
    let ghost values = char_rows(ws@).drop_first();
    let mut block: Vec<SshHost> = Vec::new();
    let mut k: usize = 1;
    while k < ws.len()
        invariant
            1 <= k <= ws@.len(),
            values == char_rows(ws@).drop_first(),
            host_views(block@) == host_block(values.take(k - 1)),
        decreases ws@.len() - k,
    {
        assert(values.take(k as int).drop_last() =~= values.take(k - 1));
        assert(values.take(k as int).last() == ws@[k as int]@);
        if alias_is_allowed(&ws[k]) {
            let h = SshHost {
                alias: string_from_chars(&ws[k]),
                hostname: None,
                user: None,
                port: None,
            };
            let ghost prev = block@;
            block.push(h);
            assert(host_views(block@) =~= host_views(prev).push(h@));
        }
        k = k + 1;
    }
    assert(values.take(ws@.len() - 1) =~= values);
    block
}

proof fn lemma_host_views_append(a: Seq<SshHost>, b: Seq<SshHost>)
    ensures
        host_views(a + b) == host_views(a) + host_views(b),
{
    assert(host_views(a + b) =~= host_views(a) + host_views(b));
}

/// Takes the configuration line `raw` into the parse state held by
/// `hosts` (closed blocks) and `current` (the open block).
fn apply_config_line(hosts: &mut Vec<SshHost>, current: &mut Vec<SshHost>, raw: &Vec<char>)
    ensures
        host_views(final(hosts)@) == apply_line(
            ParseState { hosts: host_views(old(hosts)@), current: host_views(old(current)@) },
            raw@,
        ).hosts,
        host_views(final(current)@) == apply_line(
            ParseState { hosts: host_views(old(hosts)@), current: host_views(old(current)@) },
            raw@,
        ).current,
{
    let stripped = strip_comment(raw);
    let line = trim_chars(&stripped);
    if line.len() == 0 {
        return;
    }
    let ws = split_words(&line);
    if ws.len() == 0 {
        return;
    }
    assert(char_rows(ws@)[0] == ws@[0]@);
    match classify_key(&ws[0]) {
        KeyKind::Host => {
            proof {
                lemma_host_views_append(hosts@, current@);
            }
            hosts.append(current);
            *current = open_block(&ws);
        },
        KeyKind::Setting(field) => {
            let value = if ws.len() > 1 {
                Some(string_from_chars(&ws[1]))
            } else {
                None
            };
            assert(opt_chars(value) == first_value(char_rows(ws@).drop_first()));
            set_current_field(current, field, &value);
        },
        KeyKind::Other => {},
    }
}

/// The hosts that the configuration `text` names, sorted by alias, each
/// alias once with the settings of its first `Host` block.
///
/// A line is read up to its first `#`; `Host` opens a block with the
/// aliases that follow it, less those holding `*` or `?` and the alias
/// `!`; `HostName`, `User` and `Port` (in any ASCII case) set their value,
/// the first word after them or none, on every host of the open block.
pub fn parse_ssh_config(text: &str) -> (r: Vec<SshHost>)
    ensures
        sorted_first_hosts(host_views(r@), named_hosts(text@)),
        all_aliases_allowed(host_views(r@)),
        forall|i: int, j: int| 0 <= i < j < r@.len() ==> (#[trigger] r@[i]).alias@ != (#[trigger] r@[j]).alias@,
{
    let chars = chars_of(text);
    let ls = split_lines(&chars);
    let ghost rows = char_rows(ls@);
    let mut hosts: Vec<SshHost> = Vec::new();
    let mut current: Vec<SshHost> = Vec::new();
    let mut k: usize = 0;
    assert(host_views(hosts@) =~= seq![]);
    assert(host_views(current@) =~= seq![]);
    while k < ls.len()
        invariant
            k <= ls@.len(),
            rows == char_rows(ls@),
            rows == lines(text@),
            host_views(hosts@) == apply_lines(rows.take(k as int)).hosts,
            host_views(current@) == apply_lines(rows.take(k as int)).current,
        decreases ls@.len() - k,
    {
        assert(rows.take(k + 1).drop_last() =~= rows.take(k as int));
        assert(rows.take(k + 1).last() == ls@[k as int]@);
        apply_config_line(&mut hosts, &mut current, &ls[k]);
        k = k + 1;
    }
    assert(rows.take(ls@.len() as int) =~= rows);
    proof {
        lemma_host_views_append(hosts@, current@);
    }
    hosts.append(&mut current);
    let r = sort_unique_aliases(hosts);
    proof {
        let rv = host_views(r@);
        lemma_sorted_hosts_plain_and_unique(rv, text@);
        assert forall|i: int, j: int| 0 <= i < j < r@.len() implies (#[trigger] r@[i]).alias@ != (#[trigger] r@[j]).alias@ by {
            assert(rv[i] == r@[i]@ && rv[j] == r@[j]@);
        }
    }
    r
}

} // verus!

//! The rules of the node's service layer: ports and timeouts per node id,
//! the peer list argument, client requests over UDP, request
//! authorisation, and transaction batching.
use vstd::prelude::*;
use vstd::string::StringExecFns;
use crate::text::{
    chars_equal, parse_unsigned, parse_unsigned_chars, push_char,
    push_chars, push_decimal, decimal, lemma_split_on_nonempty, split_chars, split_on, str_chars, text_chars,
};
use crate::types::RaftNodeId;

verus! {

broadcast use vstd::string::group_string_axioms;

/// The HTTP port of node `id`.
pub fn http_port(id: u64) -> (r: u64)
    requires
        id + 8000 <= u64::MAX,
    ensures
        r == id + 8000,
{
    8000 + id
}

/// The UDP port on which node `id` exchanges consensus messages.
pub fn udp_port(id: u64) -> (r: u64)
    requires
        id + 5000 <= u64::MAX,
    ensures
        r == id + 5000,
{
    5000 + id
}

/// The election timeout of node `id` in milliseconds: node 1 gets a slight
/// advantage to reliably become the first leader.
pub fn election_timeout_ms(id: u64) -> (r: u64)
    requires
        id == 1 || 450 + id * 50 <= u64::MAX,
    ensures
        r == (if id == 1 { 300 } else { 450 + id * 50 }),
{
    if id == 1 {
        300
    } else {
        450 + id * 50
    }
}

/// A peer of the cluster: its node id and, where the list gives it in the
/// multi-server form `id@host:port`, the address of its consensus port.
#[derive(Debug, Clone, PartialEq, Eq)]
pub struct PeerSpec {
    pub id: RaftNodeId,
    pub addr: Option<String>,
}

/// A peer as plain values: its id and the text of its address.
pub open spec fn peer_view(p: PeerSpec) -> (RaftNodeId, Option<Seq<char>>) {
    (
        p.id,
        match p.addr {
            Some(a) => Some(a@),
            None => None,
        },
    )
}

/// One entry of a peer list: an unsigned decimal id, optionally followed by
/// `@` and a non-empty address that holds no further `@`.
pub open spec fn peer_entry(piece: Seq<char>) -> Option<(RaftNodeId, Option<Seq<char>>)> {
    let parts = split_on(piece, '@');
    match parse_unsigned(parts[0], u64::MAX as nat) {
        Ok(id) => if parts.len() == 1 {
            Some((RaftNodeId(id as u64), None))
        } else if parts.len() == 2 && parts[1].len() > 0 {
            Some((RaftNodeId(id as u64), Some(parts[1])))
        } else {
            None
        },
        Err(_) => None,
    }
}

/// The peers of a comma-separated list; `None` when an entry is malformed.
pub open spec fn peer_list(s: Seq<char>) -> Option<Seq<(RaftNodeId, Option<Seq<char>>)>> {
    let pieces = split_on(s, ',');
    if forall|i: int| 0 <= i < pieces.len() ==> #[trigger] peer_entry(pieces[i]) is Some {
        Some(Seq::new(pieces.len(), |i: int| peer_entry(pieces[i])->0))
    } else {
        None
    }
}

/// Whether a peer list names each node once, and never node `own` itself.
pub open spec fn distinct_peers(own: u64, ps: Seq<(RaftNodeId, Option<Seq<char>>)>) -> bool {
    &&& forall|i: int| 0 <= i < ps.len() ==> (#[trigger] ps[i]).0.0 != own
    &&& forall|i: int, j: int| 0 <= i < j < ps.len() ==> (#[trigger] ps[i]).0 != (#[trigger] ps[j]).0
}

fn parse_peer_entry(piece: &Vec<char>) -> (r: Option<PeerSpec>)
    ensures
        match peer_entry(piece@) {
            Some(v) => r matches Some(p) && peer_view(p) == v,
            None => r is None,
        },
{
    let parts = split_chars(piece, '@');
    let ghost pv = parts@.map_values(|p: Vec<char>| p@);
    proof {
        lemma_split_on_nonempty(piece@, '@');
    }
    assert(pv[0] == parts@[0]@);
    let id = match parse_unsigned_chars(&parts[0], u64::MAX) {
        Ok(v) => RaftNodeId(v),
        Err(_) => {
            return None;
        },
    };
    if parts.len() == 1 {
        Some(PeerSpec { id, addr: None })
    } else if parts.len() == 2 && parts[1].len() > 0 {
        assert(pv[1] == parts@[1]@);
        let mut a = String::new();
        push_chars(&mut a, &parts[1], 0, parts[1].len());
        assert(a@ =~= parts@[1]@);
        Some(PeerSpec { id, addr: Some(a) })
    } else {
        None
    }
}

/// Reads the comma-separated peer list of node `own`, whose entries are
/// `id` or `id@host:port`; `None` when an entry is malformed, names a node
/// twice, or names `own` itself.
pub fn parse_peer_list(own: u64, s: &str) -> (r: Option<Vec<PeerSpec>>)
    ensures
        match peer_list(s@) {
            Some(ps) => if distinct_peers(own, ps) {
                r matches Some(v) && v@.map_values(|p: PeerSpec| peer_view(p)) == ps
            } else {
                r is None
            },
            None => r is None,
        },
{
    let chars = text_chars(s);
    let pieces = split_chars(&chars, ',');
    let ghost pv = pieces@.map_values(|p: Vec<char>| p@);
    let mut peers: Vec<PeerSpec> = Vec::new();
    let mut i: usize = 0;
    while i < pieces.len()
        invariant
            i <= pieces.len(),
            pv == pieces@.map_values(|p: Vec<char>| p@),
            pv == split_on(s@, ','),
            peers@.len() == i,
            forall|j: int| 0 <= j < i ==> #[trigger] peer_entry(pv[j]) is Some,
            forall|j: int| 0 <= j < i ==> peer_view(#[trigger] peers@[j]) == peer_entry(pv[j])->0,
        decreases pieces.len() - i,
    {
        assert(pv[i as int] == pieces@[i as int]@);
        match parse_peer_entry(&pieces[i]) {
            Some(p) => peers.push(p),
            None => {
                return None;
            },
        }
        i = i + 1;
    }
    let ghost ps = peers@.map_values(|p: PeerSpec| peer_view(p));
    assert(ps =~= Seq::new(pv.len(), |j: int| peer_entry(pv[j])->0));
    assert(peer_list(s@) == Some(ps));
    let mut a: usize = 0;
    while a < peers.len()
        invariant
            a <= peers.len(),
            ps == peers@.map_values(|p: PeerSpec| peer_view(p)),
            peer_list(s@) == Some(ps),
            forall|i: int| 0 <= i < a ==> (#[trigger] ps[i]).0.0 != own,
            forall|i: int, j: int| 0 <= i < j < ps.len() && i < a ==> (#[trigger] ps[i]).0 != (
            #[trigger] ps[j]).0,
        decreases peers.len() - a,
    {
        assert(ps[a as int] == peer_view(peers@[a as int]));
        if peers[a].id.0 == own {
            assert(!distinct_peers(own, ps));
            return None;
        }
        let mut b: usize = a + 1;
        while b < peers.len()
            invariant
                a < b <= peers.len(),
                a < peers.len(),
                ps == peers@.map_values(|p: PeerSpec| peer_view(p)),
                peer_list(s@) == Some(ps),
                forall|j: int| a < j < b ==> ps[a as int].0 != (#[trigger] ps[j]).0,
            decreases peers.len() - b,
        {
            assert(ps[b as int] == peer_view(peers@[b as int]));
            if peers[a].id.0 == peers[b].id.0 {
                assert(ps[a as int].0 == ps[b as int].0);
                assert(!distinct_peers(own, ps));
                return None;
            }
            b = b + 1;
        }
        a = a + 1;
    }
    Some(peers)
}

/// Where consensus messages for node `to` go: the address of the first
/// entry for `to` that gives one, else the node's port on this machine.
pub open spec fn peer_destination(peers: Seq<(RaftNodeId, Option<Seq<char>>)>, to: RaftNodeId) -> Seq<
    char,
>
    decreases peers.len(),
{
    if peers.len() == 0 {
        "127.0.0.1:"@ + decimal((to.0 + 5000) as nat)
    } else if peers[0].0 == to && peers[0].1 is Some {
        peers[0].1->0
    } else {
        peer_destination(peers.drop_first(), to)
    }
}

/// The address to which consensus messages for node `to` are sent.
pub fn peer_address(peers: &Vec<PeerSpec>, to: RaftNodeId) -> (r: String)
    requires
        to.0 + 5000 <= u64::MAX,
    ensures
        r@ == peer_destination(peers@.map_values(|p: PeerSpec| peer_view(p)), to),
{
    let ghost all = peers@.map_values(|p: PeerSpec| peer_view(p));
    assert(all.skip(0) =~= all);
    let mut i: usize = 0;
    while i < peers.len()
        invariant
            i <= peers.len(),
            all == peers@.map_values(|p: PeerSpec| peer_view(p)),
            peer_destination(all, to) == peer_destination(all.skip(i as int), to),
        decreases peers.len() - i,
    {
        let ghost rest = all.skip(i as int);
        assert(rest[0] == peer_view(peers@[i as int]));
        assert(rest.drop_first() =~= all.skip(i as int + 1));
        if peers[i].id == to {
            match &peers[i].addr {
                Some(a) => {
                    return a.clone();
                },
                None => {},
            }
        }
        i = i + 1;
    }
    assert(all.skip(i as int) =~= Seq::empty());
    proof {
        reveal_strlit("127.0.0.1:");
    }
    let mut r = "127.0.0.1:".to_string();
    push_decimal(&mut r, to.0 + 5000);
    r
}

/// The host the consensus socket binds: every interface once a peer lives
/// at an address of its own, else only this machine.
pub fn udp_bind_host(peers: &Vec<PeerSpec>) -> (r: &'static str)
    ensures
        r@ == (if exists|i: int| 0 <= i < peers@.len() && (#[trigger] peers@[i]).addr is Some {
            "0.0.0.0"@
        } else {
            "127.0.0.1"@
        }),
{
    let mut i: usize = 0;
    while i < peers.len()
        invariant
            i <= peers.len(),
            forall|j: int| 0 <= j < i ==> (#[trigger] peers@[j]).addr is None,
        decreases peers.len() - i,
    {
        if peers[i].addr.is_some() {
            return "0.0.0.0";
        }
        i = i + 1;
    }
    "127.0.0.1"
}

/// The SQL text of a client datagram `SQL:<statement>`, or `None` for any
/// other datagram.
pub open spec fn client_sql(msg: Seq<char>) -> Option<Seq<char>> {
    if msg.len() >= 4 && msg.take(4) == "SQL:"@ {
        Some(msg.skip(4))
    } else {
        None
    }
}

/// Recognises a client datagram `SQL:<statement>` and gives the statement.
pub fn parse_client_sql(msg: &str) -> (r: Option<String>)
    ensures
        match client_sql(msg@) {
            Some(sql) => r matches Some(t) && t@ == sql,
            None => r is None,
        },
{
    let chars = text_chars(msg);
    let prefix = str_chars("SQL:");
    proof {
        reveal_strlit("SQL:");
    }
    if chars.len() < 4 {
        return None;
    }
    let mut head: Vec<char> = Vec::new();
    let mut i: usize = 0;
    while i < 4
        invariant
            4 <= chars.len(),
            i <= 4,
            head@ == chars@.take(i as int),
        decreases 4 - i,
    {
        head.push(chars[i]);
        i = i + 1;
        assert(head@ =~= chars@.take(i as int));
    }
    if !chars_equal(&head, &prefix) {
        return None;
    }
    let mut sql = String::new();
    push_chars(&mut sql, &chars, 4, chars.len());
    assert(sql@ =~= chars@.skip(4));
    Some(sql)
}

/// Whether a request may pass: the dashboard (`/`) and `/status` are always
/// open; with no key configured everything is; otherwise the request must
/// carry `Authorization: Bearer <key>` or have an `api_key` parameter equal
/// to the key among the `&`-separated parameters of its query.
pub open spec fn authorized(
    path: Seq<char>,
    api_key: Option<Seq<char>>,
    auth_header: Seq<char>,
    query: Option<Seq<char>>,
) -> bool {
    ||| path == "/"@
    ||| path == "/status"@
    ||| api_key is None
    ||| auth_header == "Bearer "@ + api_key->0
    ||| (query matches Some(q) && has_param(q, "api_key="@ + api_key->0))
}

/// Whether the `&`-separated query `q` holds the parameter `param` (a name,
/// `=` and a value) as one of its pieces.
pub open spec fn has_param(q: Seq<char>, param: Seq<char>) -> bool {
    exists|i: int| 0 <= i < split_on(q, '&').len() && #[trigger] split_on(q, '&')[i] == param
}

/// Who may pass: with no key configured, everyone; the dashboard (`/`) and
/// `/status`, always; otherwise exactly the requests whose header is
/// `Bearer <key>`, or whose query has, at any position among its
/// `&`-separated pieces, the piece `api_key=<key>`.
pub proof fn law_api_key_parameter_anywhere(
    path: Seq<char>,
    key: Seq<char>,
    auth_header: Seq<char>,
    q: Seq<char>,
    i: int,
)
    ensures
        (0 <= i < split_on(q, '&').len() && split_on(q, '&')[i] == "api_key="@ + key) ==> authorized(
            path,
            Some(key),
            auth_header,
            Some(q),
        ),
        (authorized(path, Some(key), auth_header, Some(q)) && path != "/"@ && path != "/status"@
            && auth_header != "Bearer "@ + key) ==> exists|j: int|
            0 <= j < split_on(q, '&').len() && #[trigger] split_on(q, '&')[j] == "api_key="@ + key,
        auth_header == "Bearer "@ + key ==> authorized(path, Some(key), auth_header, None),
        authorized(path, None, auth_header, None),
        authorized("/"@, Some(key), auth_header, None),
        authorized("/status"@, Some(key), auth_header, None),
        (path != "/"@ && path != "/status"@ && auth_header != "Bearer "@ + key) ==> !authorized(
            path,
            Some(key),
            auth_header,
            None,
        ),
{
}

/// Decides whether a request may pass; see [`authorized`].
pub fn is_authorized(path: &str, api_key: Option<&str>, auth_header: &str, query: Option<&str>) -> (r:
    bool)
    ensures
        r == authorized(
            path@,
            match api_key {
                Some(k) => Some(k@),
                None => None,
            },
            auth_header@,
            match query {
                Some(q) => Some(q@),
                None => None,
            },
        ),
{
    proof {
        reveal_strlit("/");
        reveal_strlit("/status");
        reveal_strlit("Bearer ");
        reveal_strlit("api_key=");
    }
    let p = text_chars(path);
    if chars_equal(&p, &str_chars("/")) || chars_equal(&p, &str_chars("/status")) {
        return true;
    }
    let key = match api_key {
        Some(k) => k,
        None => return true,
    };
    let key_chars = text_chars(key);
    let mut bearer = str_chars("Bearer ");
    let mut i: usize = 0;
    let ghost b0 = bearer@;
    while i < key_chars.len()
        invariant
            i <= key_chars.len(),
            bearer@ == b0 + key_chars@.take(i as int),
        decreases key_chars.len() - i,
    {
        bearer.push(key_chars[i]);
        i = i + 1;
        assert(bearer@ =~= b0 + key_chars@.take(i as int));
    }
    assert(key_chars@.take(key_chars.len() as int) =~= key_chars@);
    if chars_equal(&text_chars(auth_header), &bearer) {
        return true;
    }
    match query {
        Some(q) => {
            let mut needle = str_chars("api_key=");
            let ghost n0 = needle@;
            let mut j: usize = 0;
            while j < key_chars.len()
                invariant
                    j <= key_chars.len(),
                    needle@ == n0 + key_chars@.take(j as int),
                decreases key_chars.len() - j,
            {
                needle.push(key_chars[j]);
                j = j + 1;
                assert(needle@ =~= n0 + key_chars@.take(j as int));
            }
            let pieces = split_chars(&text_chars(q), '&');
            let ghost pv = pieces@.map_values(|p: Vec<char>| p@);
            assert(pv == split_on(q@, '&'));
            let mut k: usize = 0;
            while k < pieces.len()
                invariant
                    k <= pieces.len(),
                    pv == pieces@.map_values(|p: Vec<char>| p@),
                    pv == split_on(q@, '&'),
                    needle@ == "api_key="@ + key@,
                    query == Some(q),
                    api_key == Some(key),
                    path@ != "/"@ && path@ != "/status"@,
                    auth_header@ != "Bearer "@ + key@,
                    forall|j: int| 0 <= j < k ==> pv[j] != needle@,
                decreases pieces.len() - k,
            {
                assert(pv[k as int] == pieces@[k as int]@);
                if chars_equal(&pieces[k], &needle) {
                    assert(split_on(q@, '&')[k as int] == "api_key="@ + key@);
                    assert(0 <= k < split_on(q@, '&').len());
                    assert(has_param(q@, "api_key="@ + key@));
                    return true;
                }
                k = k + 1;
            }
            assert(!has_param(q@, "api_key="@ + key@));
            false
        },
        None => false,
    }
}

/// `s` without its trailing occurrences of `c`.
pub open spec fn trim_end_char(s: Seq<char>, c: char) -> Seq<char>
    decreases s.len(),
{
    if s.len() > 0 && s.last() == c {
        trim_end_char(s.drop_last(), c)
    } else {
        s
    }
}

/// The statements of a transaction, each without trailing semicolons and
/// ended by `;` and a line break.
pub open spec fn statement_lines(stmts: Seq<Seq<char>>) -> Seq<char>
    decreases stmts.len(),
{
    if stmts.len() == 0 {
        Seq::empty()
    } else {
        statement_lines(stmts.drop_last()) + trim_end_char(stmts.last(), ';') + ";\n"@
    }
}

/// The single SQL text that runs `stmts` as one transaction.
pub open spec fn transaction_text(stmts: Seq<Seq<char>>) -> Seq<char> {
    "BEGIN TRANSACTION;\n"@ + statement_lines(stmts) + "COMMIT;"@
}

proof fn lemma_trim_end_char_prefix(s: Seq<char>, c: char, i: int)
    requires
        0 <= i <= s.len(),
        forall|j: int| i <= j < s.len() ==> #[trigger] s[j] == c,
        i == 0 || s[i - 1] != c,
    ensures
        trim_end_char(s, c) == s.take(i),
    decreases s.len() - i,
{
    if i < s.len() {
        assert(s.drop_last().take(i) =~= s.take(i));
        lemma_trim_end_char_prefix(s.drop_last(), c, i);
    } else {
        assert(s.take(i) =~= s);
    }
}

/// Wraps statements in `BEGIN TRANSACTION;` and `COMMIT;` so that they
/// replicate as a single log entry.
pub fn wrap_transaction(statements: &Vec<String>) -> (r: String)
    ensures
        r@ == transaction_text(statements@.map_values(|s: String| s@)),
{
    let ghost sv = statements@.map_values(|s: String| s@);
    let mut wrapped = "BEGIN TRANSACTION;\n".to_string();
    let mut k: usize = 0;
    assert(sv.take(0) =~= Seq::<Seq<char>>::empty());
    while k < statements.len()
        invariant
            k <= statements.len(),
            sv == statements@.map_values(|s: String| s@),
            wrapped@ == "BEGIN TRANSACTION;\n"@ + statement_lines(sv.take(k as int)),
        decreases statements.len() - k,
    {
        let chars = text_chars(statements[k].as_str());
        assert(chars@ == sv[k as int]);
        let mut end = chars.len();
        while end > 0 && chars[end - 1] == ';'
            invariant
                end <= chars.len(),
                forall|j: int| end <= j < chars.len() ==> #[trigger] chars@[j] == ';',
            decreases end,
        {
            end = end - 1;
        }
        proof {
            lemma_trim_end_char_prefix(chars@, ';', end as int);
            assert(sv.take(k as int + 1).drop_last() =~= sv.take(k as int));
            assert(chars@.take(end as int) =~= chars@.subrange(0, end as int));
        }
        push_chars(&mut wrapped, &chars, 0, end);
        wrapped.append(";\n");
        k = k + 1;
    }
    assert(sv.take(statements.len() as int) =~= sv);
    wrapped.append("COMMIT;");
    wrapped
}

} // verus!

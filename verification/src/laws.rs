//! Properties that relate several operations of the server.
use vstd::prelude::*;
use crate::connection::{
    after_check_authentication, credentials_accepted, first_key_from,
    after_authenticate, after_cleanup_valid_ids, authenticate_outcome, authenticates, drained,
    expired, fresh_entries, expired_ids, has_auth, lemma_first_eq_from,
    lemma_first_key_from, make_room, without_first, without_first_key, ConnectionState,
};
use crate::hash::auth_token;
use crate::htmlhandle::{
    file_response, insert_before, RequestInfoView, RequestType,
    content_length, first_prefixed, framed, html_response, request_content, utf8_len, RequestView,
};
use crate::text::{
    leading_count, trailing_count, trim_char,
    contains, decimal, find, is_prefix, lemma_decimal, lemma_find_from, lemma_find_some,
    lemma_hex_no_slash, lemma_parse_decimal, lemma_split_on_join, lemma_split_on_no_sep,
    lemma_split_on_nonempty, lemma_tokens_join, lemma_tokens_single, lines, occurs_at,
    second_block, split_on, tokens,
};

verus! {

/// The token that a served page gives to connection `id` authenticates
/// that connection: while `id` is authenticated (and has no `/`), the
/// command `/<id>/<token of id>` passes the token check.
pub proof fn law_issued_token_authenticates(auth: Seq<(Seq<char>, u64)>, id: Seq<char>)
    requires
        has_auth(auth, id),
        !id.contains('/'),
    ensures
        authenticates(auth, "/"@ + id + "/"@ + auth_token(id)),
{
    reveal_strlit("/");
    let tok = auth_token(id);
    let cmd = "/"@ + id + "/"@ + tok;
    assert(cmd.take(1) =~= "/"@);
    assert(cmd.drop_first() =~= id.push('/') + tok);
    lemma_hex_no_slash(crate::hash::spec_hash(crate::consts::html::ID_HASH@ + crate::consts::html::PW_HASH@ + id) as nat);
    lemma_split_on_join(id, '/', tok);
    lemma_split_on_no_sep(id, '/');
    lemma_split_on_no_sep(tok, '/');
    lemma_first_key_from(auth, id, 0);
}

/// After a successful authentication the connection is authenticated.
pub proof fn law_authenticated_after_success(
    s: ConnectionState,
    request: RequestView,
    id: Seq<char>,
    now: u64,
)
    requires
        authenticate_outcome(s, request),
    ensures
        has_auth(after_authenticate(s, request, id, now).auth, id),
{
    let a = after_authenticate(s, request, id, now).auth;
    assert(a[a.len() - 1].0 == id);
}

/// Dropping run-out authentications keeps no run-out one.
pub proof fn law_fresh_entries_not_expired(auth: Seq<(Seq<char>, u64)>, now: u64)
    ensures
        forall|i: int|
            0 <= i < fresh_entries(auth, now).len() ==> !expired(
                (#[trigger] fresh_entries(auth, now)[i]).1,
                now,
            ),
    decreases auth.len(),
{
    if auth.len() > 0 {
        law_fresh_entries_not_expired(auth.drop_last(), now);
        let r = fresh_entries(auth.drop_last(), now);
        assert forall|i: int|
            0 <= i < fresh_entries(auth, now).len() implies !expired(
            (#[trigger] fresh_entries(auth, now)[i]).1,
            now,
        ) by {
            if i < r.len() {
                assert(fresh_entries(auth, now)[i] == r[i]);
            }
        }
    }
}

/// Dropping run-out authentications twice at the same time drops nothing
/// more the second time.
pub proof fn law_cleanup_auth_idempotent(auth: Seq<(Seq<char>, u64)>, now: u64)
    ensures
        fresh_entries(fresh_entries(auth, now), now) == fresh_entries(auth, now),
        expired_ids(fresh_entries(auth, now), now) == Seq::<Seq<char>>::empty(),
    decreases auth.len(),
{
    if auth.len() > 0 {
        law_cleanup_auth_idempotent(auth.drop_last(), now);
        let r = fresh_entries(auth.drop_last(), now);
        if !expired(auth.last().1, now) {
            assert(r.push(auth.last()).drop_last() =~= r);
        }
    }
}

/// Every authentication is either kept or reported as dropped.
pub proof fn law_cleanup_auth_partition(auth: Seq<(Seq<char>, u64)>, now: u64)
    ensures
        fresh_entries(auth, now).len() + expired_ids(auth, now).len() == auth.len(),
    decreases auth.len(),
{
    if auth.len() > 0 {
        law_cleanup_auth_partition(auth.drop_last(), now);
    }
}

proof fn lemma_drained_shrinks(valid: Seq<Seq<char>>, auth: Seq<(Seq<char>, u64)>, rem: Seq<Seq<char>>)
    ensures
        drained(valid, auth, rem).0.len() <= valid.len(),
        drained(valid, auth, rem).1.len() <= auth.len(),
        drained(valid, auth, rem).1.len() + drained(valid, auth, rem).2.len() == auth.len(),
    decreases rem.len(),
{
    if rem.len() > 0 {
        let x = rem.last();
        lemma_first_eq_from(valid, x, 0);
        lemma_first_key_from(auth, x, 0);
        lemma_drained_shrinks(without_first(valid, x), without_first_key(auth, x), rem.drop_last());
    }
}

/// Cleaning up the valid ids empties the removal list, never adds a valid
/// id or an authentication, and reports each authentication it drops.
pub proof fn law_cleanup_valid_ids_shrinks(s: ConnectionState)
    ensures
        after_cleanup_valid_ids(s).0.to_remove == Seq::<Seq<char>>::empty(),
        after_cleanup_valid_ids(s).0.valid.len() <= s.valid.len(),
        after_cleanup_valid_ids(s).0.auth.len() + after_cleanup_valid_ids(s).1.len() == s.auth.len(),
{
    crate::connection::lemma_first_unauth_from(s.valid, s.auth, 0);
    assert(make_room(s.valid, s.auth).len() <= s.valid.len());
    lemma_drained_shrinks(make_room(s.valid, s.auth), s.auth, s.to_remove);
}


/// The header line of a framed response.
spec fn header_line(n: nat) -> Seq<char> {
    "Content-Length: "@ + decimal(n)
}

proof fn lemma_header_line(n: nat)
    ensures
        "Content-Length: "@ == "Content-Length:"@.push(' '),
        header_line(n).len() > 16,
        !header_line(n).contains('\n'),
        is_prefix("Content-Length:"@, header_line(n)),
        header_line(n).subrange(0, 14) == "Content-Length"@,
{
    reveal_strlit("Content-Length: ");
    reveal_strlit("Content-Length:");
    reveal_strlit("Content-Length");
    lemma_decimal(n);
    let h = header_line(n);
    assert("Content-Length: "@ =~= "Content-Length:"@.push(' '));
    assert(h.take(15) =~= "Content-Length:"@);
    assert(h.subrange(0, 14) =~= "Content-Length"@);
    if h.contains('\n') {
        let i = choose|i: int| 0 <= i < h.len() && h[i] == '\n';
        if i >= 16 {
            assert(h[i] == decimal(n)[i - 16]);
            assert(crate::text::is_digit(decimal(n)[i - 16]));
        }
    }
}

/// The pieces of a framed response between line feeds.
proof fn lemma_framed_split(status: Seq<char>, n: nat, body: Seq<char>)
    requires
        !status.contains('\n'),
    ensures
        split_on(framed(status, n, body), '\n') == seq![
            status.push('\r'),
            header_line(n).push('\r'),
            seq!['\r'],
        ] + split_on(body, '\n'),
{
    reveal_strlit("\r\n");
    reveal_strlit("\r\n\r\n");
    lemma_header_line(n);
    let a1 = status.push('\r');
    let a2 = header_line(n).push('\r');
    let a3 = seq!['\r'];
    let b2 = a3.push('\n') + body;
    let b1 = a2.push('\n') + b2;
    assert(framed(status, n, body) =~= a1.push('\n') + b1);
    assert(!a1.contains('\n')) by {
        if a1.contains('\n') {
            let i = choose|i: int| 0 <= i < a1.len() && a1[i] == '\n';
            assert(status[i] == '\n');
        }
    }
    assert(!a2.contains('\n')) by {
        if a2.contains('\n') {
            let i = choose|i: int| 0 <= i < a2.len() && a2[i] == '\n';
            assert(header_line(n)[i] == '\n');
        }
    }
    assert(!a3.contains('\n'));
    lemma_split_on_join(a1, '\n', b1);
    lemma_split_on_join(a2, '\n', b2);
    lemma_split_on_join(a3, '\n', body);
    lemma_split_on_no_sep(a1, '\n');
    lemma_split_on_no_sep(a2, '\n');
    lemma_split_on_no_sep(a3, '\n');
    assert(split_on(framed(status, n, body), '\n') =~= seq![a1, a2, a3] + split_on(body, '\n'));
}

proof fn lemma_response_lines(status: Seq<char>, n: nat, body: Seq<char>)
    requires
        !status.contains('\n'),
    ensures
        lines(framed(status, n, body)).len() >= 2,
        lines(framed(status, n, body))[0] == status,
        lines(framed(status, n, body))[1] == header_line(n),
{
    let text = framed(status, n, body);
    lemma_framed_split(status, n, body);
    lemma_split_on_nonempty(body, '\n');
    let raw = split_on(text, '\n');
    assert(raw.len() >= 4);
    assert(raw[0] == status.push('\r'));
    assert(raw[1] == header_line(n).push('\r'));
    assert(status.push('\r').drop_last() =~= status);
    assert(header_line(n).push('\r').drop_last() =~= header_line(n));
}

proof fn lemma_response_mentions_length(status: Seq<char>, n: nat, body: Seq<char>)
    ensures
        contains(framed(status, n, body), "Content-Length"@),
{
    let text = framed(status, n, body);
    lemma_header_line(n);
    reveal_strlit("\r\n");
    let l = status.len() as int;
    assert(text.subrange(l + 2, l + 16) =~= header_line(n).subrange(0, 14)) by {
        assert forall|k: int| 0 <= k < 14 implies text.subrange(l + 2, l + 16)[k] == header_line(
            n,
        ).subrange(0, 14)[k] by {
            assert(text[l + 2 + k] == header_line(n)[k]);
        }
    }
    assert(occurs_at(text, "Content-Length"@, l + 2));
    lemma_find_some(text, "Content-Length"@, l + 2);
}

proof fn lemma_header_tokens(n: nat)
    ensures
        tokens(header_line(n)) == seq!["Content-Length:"@, decimal(n)],
{
    lemma_header_line(n);
    lemma_tokens_join("Content-Length:"@, ' ', decimal(n));
    assert(header_line(n) =~= "Content-Length:"@.push(' ') + decimal(n));
    reveal_strlit("Content-Length:");
    assert forall|i: int| 0 <= i < "Content-Length:"@.len() implies !crate::text::is_whitespace(
        #[trigger] "Content-Length:"@[i],
    ) by {}
    lemma_tokens_single("Content-Length:"@);
    lemma_decimal(n);
    lemma_tokens_single(decimal(n));
    assert(seq!["Content-Length:"@] + seq![decimal(n)] =~= seq!["Content-Length:"@, decimal(n)]);
}

/// A response built for a body declares the body's length: reading the
/// `Content-Length` of the response text gives the UTF-8 length of the
/// body. (The status line must be one line that does not itself start
/// with `Content-Length:`.)
pub proof fn law_response_declares_body_length(status: Seq<char>, body: Seq<char>)
    requires
        !status.contains('\n'),
        !is_prefix("Content-Length:"@, status),
        utf8_len(body) <= usize::MAX,
    ensures
        content_length(html_response(status, body)) == Some(utf8_len(body) as usize),
{
    let n = utf8_len(body);
    let text = html_response(status, body);
    let ls = lines(text);
    lemma_response_lines(status, n, body);
    lemma_response_mentions_length(status, n, body);
    lemma_header_line(n);
    assert(first_prefixed(ls, "Content-Length:"@, 1) == Some(1int));
    assert(first_prefixed(ls, "Content-Length:"@, 0) == Some(1int));
    lemma_header_tokens(n);
    lemma_parse_decimal(n as usize);
}


proof fn lemma_framed_shape(status: Seq<char>, n: nat, body: Seq<char>)
    ensures
        framed(status, n, body) == status + seq!['\r', '\n'] + header_line(n) + seq![
            '\r',
            '\n',
            '\r',
            '\n',
        ] + body,
        "\r\n\r\n"@ == seq!['\r', '\n', '\r', '\n'],
{
    reveal_strlit("\r\n");
    reveal_strlit("\r\n\r\n");
    assert("\r\n"@ =~= seq!['\r', '\n']);
    assert("\r\n\r\n"@ =~= seq!['\r', '\n', '\r', '\n']);
    assert(framed(status, n, body) =~= status + seq!['\r', '\n'] + header_line(n) + seq![
        '\r',
        '\n',
        '\r',
        '\n',
    ] + body);
}

/// Before the body, a framed response has line feeds only at the end of
/// the status line and in the blank line.
proof fn lemma_framed_newlines(status: Seq<char>, n: nat, body: Seq<char>, k: int)
    requires
        !status.contains('\n'),
        0 <= k < status.len() + header_line(n).len() + 6,
        framed(status, n, body)[k] == '\n',
    ensures
        k == status.len() + 1 || k == status.len() + header_line(n).len() + 3 || k == status.len()
            + header_line(n).len() + 5,
{
    lemma_framed_shape(status, n, body);
    lemma_header_line(n);
    let l = status.len() as int;
    let h = header_line(n).len() as int;
    let text = framed(status, n, body);
    if k < l {
        assert(text[k] == status[k]);
    } else if l + 2 <= k < l + 2 + h {
        assert(text[k] == header_line(n)[k - l - 2]);
    }
}

/// A response built for a body gives the body back as its content, when
/// the body is not empty and has no blank line (`\r\n\r\n`) of its own.
pub proof fn law_response_content_is_body(status: Seq<char>, body: Seq<char>)
    requires
        !status.contains('\n'),
        !is_prefix("Content-Length:"@, status),
        utf8_len(body) <= usize::MAX,
        body.len() > 0,
        !contains(body, "\r\n\r\n"@),
    ensures
        request_content(html_response(status, body)) == Some(body),
{
    let n = utf8_len(body);
    let text = html_response(status, body);
    let sep = "\r\n\r\n"@;
    law_response_declares_body_length(status, body);
    lemma_framed_shape(status, n, body);
    lemma_header_line(n);
    let l = status.len() as int;
    let h = header_line(n).len() as int;
    let p = l + 2 + h;
    assert(text.subrange(p, p + 4) =~= sep);
    assert(occurs_at(text, sep, p));
    lemma_find_some(text, sep, p);
    lemma_find_from(text, sep, 0);
    let k = find(text, sep)->0;
    if k < p {
        assert(text.subrange(k, k + 4)[1] == text[k + 1]);
        assert(text.subrange(k, k + 4)[3] == text[k + 3]);
        lemma_framed_newlines(status, n, body, k + 1);
        lemma_framed_newlines(status, n, body, k + 3);
    }
    assert(k == p);
    assert(text.skip(p + 4) =~= body);
    assert(second_block(text, sep) == Some(body));
}


proof fn lemma_leading_count(s: Seq<char>, c: char)
    ensures
        leading_count(s, c) <= s.len(),
        forall|i: int| 0 <= i < leading_count(s, c) ==> s[i] == c,
        leading_count(s, c) < s.len() ==> s[leading_count(s, c) as int] != c,
    decreases s.len(),
{
    if s.len() > 0 && s[0] == c {
        lemma_leading_count(s.drop_first(), c);
        assert forall|i: int| 0 <= i < leading_count(s, c) implies s[i] == c by {
            if i > 0 {
                assert(s[i] == s.drop_first()[i - 1]);
            }
        }
    }
}

proof fn lemma_trailing_count(s: Seq<char>, c: char)
    ensures
        trailing_count(s, c) <= s.len(),
        forall|i: int| s.len() - trailing_count(s, c) <= i < s.len() ==> s[i] == c,
        trailing_count(s, c) < s.len() ==> s[s.len() - trailing_count(s, c) - 1] != c,
    decreases s.len(),
{
    if s.len() > 0 && s.last() == c {
        lemma_trailing_count(s.drop_last(), c);
        assert forall|i: int| s.len() - trailing_count(s, c) <= i < s.len() implies s[i] == c by {
            if i < s.len() - 1 {
                assert(s[i] == s.drop_last()[i]);
            }
        }
        if trailing_count(s, c) < s.len() {
            assert(s[s.len() - trailing_count(s, c) - 1] == s.drop_last()[s.drop_last().len()
                - trailing_count(s.drop_last(), c) - 1]);
        }
    }
}

/// Trimming leaves no copy of the trimmed character at either end, and
/// keeps everything between the first and last other characters.
pub proof fn law_trim_char_ends(s: Seq<char>, c: char)
    ensures
        trim_char(s, c).len() == 0 || (trim_char(s, c)[0] != c && trim_char(s, c).last() != c),
        (forall|i: int| 0 <= i < s.len() ==> s[i] == c) ==> trim_char(s, c).len() == 0,
{
    lemma_leading_count(s, c);
    lemma_trailing_count(s, c);
    let l = leading_count(s, c) as int;
    let t = trailing_count(s, c) as int;
    if l < s.len() {
        assert(l < s.len() - t) by {
            if s.len() - t <= l {
                assert(s[l] == c);
            }
        }
        assert(trim_char(s, c)[0] == s[l]);
        assert(trim_char(s, c).last() == s[s.len() - t - 1]);
    }
}

/// Making room at the connection limit never drops an authenticated id.
pub proof fn law_make_room_keeps_authenticated(
    valid: Seq<Seq<char>>,
    auth: Seq<(Seq<char>, u64)>,
    x: Seq<char>,
)
    requires
        valid.contains(x),
        has_auth(auth, x),
    ensures
        make_room(valid, auth).contains(x),
{
    crate::connection::lemma_first_unauth_from(valid, auth, 0);
    let j = choose|j: int| 0 <= j < valid.len() && valid[j] == x;
    if valid.len() == crate::consts::connection::MAX_ALLOWED_CONNECTIONS {
        match crate::connection::first_unauth_from(valid, auth, 0) {
            Some(i) => {
                assert(i != j);
                let r = valid.remove(i);
                if j < i {
                    assert(r[j] == x);
                } else {
                    assert(r[j - 1] == x);
                }
            },
            None => {},
        }
    }
}


/// The token of a connection id, from the definition of the hash: the
/// lowercase hexadecimal hash of both shared secrets followed by the id.
pub open spec fn token_of(id: Seq<char>) -> Seq<char> {
    crate::text::hex(
        crate::hash::spec_hash(crate::consts::html::ID_HASH@ + crate::consts::html::PW_HASH@ + id) as nat,
    )
}

/// A GET command `/<id>/<token of id>` authenticates an authenticated id
/// whatever further `/`-separated parts follow (a sub-page such as
/// `/<id>/<token>/about`): the token check consumes one authentication of
/// `<id>` and schedules `<id>` for removal.
pub proof fn law_token_authenticates_with_any_suffix(
    s: ConnectionState,
    id: Seq<char>,
    suffix: Seq<char>,
)
    requires
        has_auth(s.auth, id),
        !id.contains('/'),
        suffix.len() == 0 || suffix[0] == '/',
    ensures
        authenticates(s.auth, "/"@ + id + "/"@ + token_of(id) + suffix),
        after_check_authentication(s, "/"@ + id + "/"@ + token_of(id) + suffix).to_remove
            == s.to_remove.push(id),
        after_check_authentication(s, "/"@ + id + "/"@ + token_of(id) + suffix).auth.len() + 1
            == s.auth.len(),
        after_check_authentication(s, "/"@ + id + "/"@ + token_of(id) + suffix).valid == s.valid,
{
    reveal_strlit("/");
    let tok = token_of(id);
    assert(tok == auth_token(id));
    let cmd = "/"@ + id + "/"@ + tok + suffix;
    assert(cmd.take(1) =~= "/"@);
    lemma_hex_no_slash(crate::hash::spec_hash(crate::consts::html::ID_HASH@ + crate::consts::html::PW_HASH@ + id) as nat);
    lemma_split_on_no_sep(id, '/');
    lemma_split_on_no_sep(tok, '/');
    let parts = split_on(cmd.drop_first(), '/');
    if suffix.len() == 0 {
        assert(cmd.drop_first() =~= id.push('/') + tok);
        lemma_split_on_join(id, '/', tok);
    } else {
        let rest = suffix.drop_first();
        assert(cmd.drop_first() =~= id.push('/') + (tok.push('/') + rest));
        lemma_split_on_join(id, '/', tok.push('/') + rest);
        lemma_split_on_join(tok, '/', rest);
        lemma_split_on_nonempty(rest, '/');
    }
    assert(parts[0] == id);
    assert(parts[1] == tok);
    lemma_first_key_from(s.auth, id, 0);
}

/// The login proof for connection id `id` with secret `secret`: the
/// lowercase hexadecimal hash of the secret followed by the id.
pub open spec fn proof_of(secret: Seq<char>, id: Seq<char>) -> Seq<char> {
    crate::text::hex(crate::hash::spec_hash(secret + id) as nat)
}

/// Credentials log in exactly when their id is one of the valid ids,
/// wherever it stands among them, and both proofs are right; adding valid
/// ids never refuses credentials that were accepted.
pub proof fn law_credentials_accepted_anywhere(
    valid: Seq<Seq<char>>,
    c: crate::connection::CredentialsView,
    more: Seq<Seq<char>>,
)
    ensures
        credentials_accepted(valid, c) <==> (valid.contains(c.conn_id) && c.hashid_sec == proof_of(
            crate::consts::html::ID_HASH@,
            c.conn_id,
        ) && c.hashpw_sec == proof_of(crate::consts::html::PW_HASH@, c.conn_id)),
        credentials_accepted(valid, c) ==> credentials_accepted(more + valid, c)
            && credentials_accepted(valid + more, c),
{
    if valid.contains(c.conn_id) {
        let i = choose|i: int| 0 <= i < valid.len() && valid[i] == c.conn_id;
        assert((more + valid)[more.len() + i] == c.conn_id);
        assert((valid + more)[i] == c.conn_id);
    }
}


/// Every GET page but the login page, whichever page was chosen (index,
/// sub-page or not-found), is served with the connection id and its token
/// inserted before the first `</script>`, and `Content-Length` counts the
/// inserted text; the login page gets the id alone; other requests get the
/// file as it is.
pub proof fn law_get_pages_carry_token(info: RequestInfoView, id: Seq<char>, body: Seq<char>)
    ensures
        info._type == RequestType::GET && info.html_path != crate::consts::html::LOGIN_HTML_PATH@
            ==> file_response(info, id, body) == insert_before(
            framed(
                info.status_code,
                utf8_len(body) + utf8_len(
                    "hash1 = 0x"@ + id + ";hash2 = 0x"@ + token_of(id) + ";"@,
                ),
                body,
            ),
            "hash1 = 0x"@ + id + ";hash2 = 0x"@ + token_of(id) + ";"@,
            "</script>"@,
        ),
        info.html_path == crate::consts::html::LOGIN_HTML_PATH@ ==> file_response(info, id, body)
            == insert_before(
            framed(info.status_code, utf8_len(body) + utf8_len("hash1 = 0x"@ + id + ";"@), body),
            "hash1 = 0x"@ + id + ";"@,
            "</script>"@,
        ),
        info._type != RequestType::GET && info.html_path != crate::consts::html::LOGIN_HTML_PATH@
            ==> file_response(info, id, body) == framed(info.status_code, utf8_len(body), body),
{
}


proof fn lemma_first_prefixed_at(ls: Seq<Seq<char>>, p: Seq<char>, k: int, j: int)
    requires
        0 <= j <= k < ls.len(),
        forall|i: int| j <= i < k ==> !is_prefix(p, #[trigger] ls[i]),
        is_prefix(p, ls[k]),
    ensures
        first_prefixed(ls, p, j) == Some(k),
    decreases k - j,
{
    if j < k {
        lemma_first_prefixed_at(ls, p, k, j + 1);
    }
}

proof fn lemma_prefix_of_strip_cr(p: Seq<char>, x: Seq<char>)
    requires
        is_prefix(p, crate::text::strip_cr(x)),
    ensures
        is_prefix(p, x),
{
    if x.len() > 0 && x.last() == '\r' {
        assert(x.take(p.len() as int) =~= x.drop_last().take(p.len() as int));
    }
}

/// The declared length is read from the first header line that starts
/// with `Content-Length:`, however many other lines come before it: for a
/// text made of any lines none of which starts with `Content-Length:`, then
/// `Content-Length: n`, then anything, the declared length is `n`.
pub proof fn law_content_length_after_any_headers(pre: Seq<char>, n: usize, post: Seq<char>)
    requires
        forall|i: int|
            0 <= i < split_on(pre, '\n').len() ==> !is_prefix(
                "Content-Length:"@,
                #[trigger] split_on(pre, '\n')[i],
            ),
    ensures
        content_length(pre + "\r\n"@ + "Content-Length: "@ + decimal(n as nat) + "\r\n"@ + post)
            == Some(n),
{
    reveal_strlit("\r\n");
    let p = "Content-Length:"@;
    let h = header_line(n as nat);
    let text = pre + "\r\n"@ + "Content-Length: "@ + decimal(n as nat) + "\r\n"@ + post;
    let a1 = pre.push('\r');
    let b = h.push('\r').push('\n') + post;
    assert(text =~= a1.push('\n') + b);
    lemma_split_on_join(a1, '\n', b);
    lemma_split_on_join(h.push('\r'), '\n', post);
    lemma_header_line(n as nat);
    assert(!h.push('\r').contains('\n')) by {
        if h.push('\r').contains('\n') {
            let i = choose|i: int| 0 <= i < h.push('\r').len() && h.push('\r')[i] == '\n';
            assert(h[i] == '\n');
        }
    }
    lemma_split_on_no_sep(h.push('\r'), '\n');
    assert(a1.drop_last() =~= pre);
    lemma_split_on_nonempty(pre, '\n');
    lemma_split_on_nonempty(post, '\n');
    let sp = split_on(pre, '\n');
    let sa = split_on(a1, '\n');
    assert(sa == sp.update(sp.len() - 1, sp.last().push('\r')));
    let raw = split_on(text, '\n');
    let k = sp.len() as int;
    assert(raw == sa + (seq![h.push('\r')] + split_on(post, '\n')));
    let ls = lines(text);
    assert(raw.len() >= k + 2);
    assert forall|i: int| 0 <= i < k implies !is_prefix(p, #[trigger] ls[i]) by {
        assert(ls[i] == crate::text::strip_cr(raw[i]));
        if i < k - 1 {
            assert(raw[i] == sp[i]);
            if is_prefix(p, ls[i]) {
                lemma_prefix_of_strip_cr(p, raw[i]);
            }
        } else {
            assert(raw[i] == sp[i].push('\r'));
            assert(sp[i].push('\r').drop_last() =~= sp[i]);
        }
    }
    assert(ls[k] == crate::text::strip_cr(raw[k]));
    assert(raw[k] == h.push('\r'));
    assert(h.push('\r').drop_last() =~= h);
    lemma_first_prefixed_at(ls, p, k, 0);
    let l = pre.len() as int;
    assert(text.subrange(l + 2, l + 16) =~= h.subrange(0, 14)) by {
        assert forall|j: int| 0 <= j < 14 implies text.subrange(l + 2, l + 16)[j] == h.subrange(
            0,
            14,
        )[j] by {
            assert(text[l + 2 + j] == h[j]);
        }
    }
    assert(occurs_at(text, "Content-Length"@, l + 2));
    lemma_find_some(text, "Content-Length"@, l + 2);
    lemma_header_tokens(n as nat);
    lemma_parse_decimal(n);
}


/// `x` occurs at most once in `ids`.
pub open spec fn at_most_once(ids: Seq<Seq<char>>, x: Seq<char>) -> bool {
    forall|i: int, j: int|
        0 <= i < ids.len() && 0 <= j < ids.len() && ids[i] == x && ids[j] == x ==> i == j
}

/// At most one authentication has the id `x`.
pub open spec fn key_at_most_once(auth: Seq<(Seq<char>, u64)>, x: Seq<char>) -> bool {
    forall|i: int, j: int|
        0 <= i < auth.len() && 0 <= j < auth.len() && auth[i].0 == x && auth[j].0 == x ==> i == j
}

proof fn lemma_remove_ids(ids: Seq<Seq<char>>, i: int, x: Seq<char>)
    requires
        0 <= i < ids.len(),
    ensures
        ids.remove(i).contains(x) ==> ids.contains(x),
        at_most_once(ids, x) ==> at_most_once(ids.remove(i), x),
        ids[i] == x && at_most_once(ids, x) ==> !ids.remove(i).contains(x),
        ids[i] != x && ids.contains(x) ==> ids.remove(i).contains(x),
{
    let r = ids.remove(i);
    if r.contains(x) {
        let k = choose|k: int| 0 <= k < r.len() && r[k] == x;
        if k < i {
            assert(ids[k] == x);
        } else {
            assert(ids[k + 1] == x);
        }
    }
    if at_most_once(ids, x) {
        assert forall|a: int, b: int|
            0 <= a < r.len() && 0 <= b < r.len() && r[a] == x && r[b] == x implies a == b by {
            let a1 = if a < i { a } else { a + 1 };
            let b1 = if b < i { b } else { b + 1 };
            assert(ids[a1] == x && ids[b1] == x);
        }
        if ids[i] == x && r.contains(x) {
            let k = choose|k: int| 0 <= k < r.len() && r[k] == x;
            let k1 = if k < i { k } else { k + 1 };
            assert(ids[k1] == x);
        }
    }
    if ids[i] != x && ids.contains(x) {
        let k = choose|k: int| 0 <= k < ids.len() && ids[k] == x;
        if k < i {
            assert(r[k] == x);
        } else {
            assert(r[k - 1] == x);
        }
    }
}

proof fn lemma_remove_auth(auth: Seq<(Seq<char>, u64)>, i: int, x: Seq<char>)
    requires
        0 <= i < auth.len(),
    ensures
        has_auth(auth.remove(i), x) ==> has_auth(auth, x),
        key_at_most_once(auth, x) ==> key_at_most_once(auth.remove(i), x),
        auth[i].0 == x && key_at_most_once(auth, x) ==> !has_auth(auth.remove(i), x),
        auth[i].0 != x && has_auth(auth, x) ==> has_auth(auth.remove(i), x),
{
    let r = auth.remove(i);
    if has_auth(r, x) {
        let k = choose|k: int| 0 <= k < r.len() && (#[trigger] r[k]).0 == x;
        if k < i {
            assert(auth[k].0 == x);
        } else {
            assert(auth[k + 1].0 == x);
        }
    }
    if key_at_most_once(auth, x) {
        assert forall|a: int, b: int|
            0 <= a < r.len() && 0 <= b < r.len() && r[a].0 == x && r[b].0 == x implies a == b by {
            let a1 = if a < i { a } else { a + 1 };
            let b1 = if b < i { b } else { b + 1 };
            assert(auth[a1].0 == x && auth[b1].0 == x);
        }
        if auth[i].0 == x && has_auth(r, x) {
            let k = choose|k: int| 0 <= k < r.len() && (#[trigger] r[k]).0 == x;
            let k1 = if k < i { k } else { k + 1 };
            assert(auth[k1].0 == x);
        }
    }
    if auth[i].0 != x && has_auth(auth, x) {
        let k = choose|k: int| 0 <= k < auth.len() && (#[trigger] auth[k]).0 == x;
        if k < i {
            assert(r[k].0 == x);
        } else {
            assert(r[k - 1].0 == x);
        }
    }
}

/// Dropping the scheduled ids never brings back an id or an authentication.
proof fn lemma_drained_subset(
    valid: Seq<Seq<char>>,
    auth: Seq<(Seq<char>, u64)>,
    rem: Seq<Seq<char>>,
    x: Seq<char>,
)
    ensures
        !valid.contains(x) ==> !drained(valid, auth, rem).0.contains(x),
        !has_auth(auth, x) ==> !has_auth(drained(valid, auth, rem).1, x),
    decreases rem.len(),
{
    if rem.len() > 0 {
        let y = rem.last();
        lemma_first_eq_from(valid, y, 0);
        lemma_first_key_from(auth, y, 0);
        if let Some(i) = crate::connection::first_eq_from(valid, y, 0) {
            lemma_remove_ids(valid, i, x);
        }
        if let Some(i) = first_key_from(auth, y, 0) {
            lemma_remove_auth(auth, i, x);
        }
        lemma_drained_subset(without_first(valid, y), without_first_key(auth, y), rem.drop_last(), x);
    }
}

proof fn lemma_drained_drops(
    valid: Seq<Seq<char>>,
    auth: Seq<(Seq<char>, u64)>,
    rem: Seq<Seq<char>>,
    x: Seq<char>,
)
    requires
        rem.contains(x),
    ensures
        at_most_once(valid, x) ==> !drained(valid, auth, rem).0.contains(x),
        key_at_most_once(auth, x) ==> !has_auth(drained(valid, auth, rem).1, x),
        has_auth(auth, x) && key_at_most_once(auth, x) ==> drained(valid, auth, rem).2.contains(x),
    decreases rem.len(),
{
    let y = rem.last();
    let v1 = without_first(valid, y);
    let a1 = without_first_key(auth, y);
    let r1 = rem.drop_last();
    lemma_first_eq_from(valid, y, 0);
    lemma_first_key_from(auth, y, 0);
    if let Some(i) = crate::connection::first_eq_from(valid, y, 0) {
        lemma_remove_ids(valid, i, x);
    }
    if let Some(i) = first_key_from(auth, y, 0) {
        lemma_remove_auth(auth, i, x);
    }
    let d = drained(valid, auth, rem);
    let d1 = drained(v1, a1, r1);
    let logged = if first_key_from(auth, y, 0) is Some {
        seq![y]
    } else {
        Seq::<Seq<char>>::empty()
    };
    assert(d.2 == logged + d1.2);
    if y == x {
        lemma_drained_subset(v1, a1, r1, x);
        if has_auth(auth, x) {
            assert(logged[0] == x);
            assert(d.2[0] == x);
        }
    } else {
        assert(r1.contains(x)) by {
            let k = choose|k: int| 0 <= k < rem.len() && rem[k] == x;
            assert(k < rem.len() - 1);
            assert(r1[k] == x);
        }
        lemma_drained_drops(v1, a1, r1, x);
        if has_auth(auth, x) && key_at_most_once(auth, x) {
            assert(has_auth(a1, x));
            let k = choose|k: int| 0 <= k < d1.2.len() && d1.2[k] == x;
            assert(d.2[logged.len() + k] == x);
        }
    }
}

/// Cleaning up drops every scheduled id, not only one of them: afterwards
/// no scheduled id that was a valid id once is still valid, no scheduled id
/// with one authentication is still authenticated, and each such
/// authenticated id is reported as logged off.
pub proof fn law_cleanup_drops_every_scheduled_id(s: ConnectionState, x: Seq<char>)
    requires
        s.to_remove.contains(x),
    ensures
        at_most_once(s.valid, x) ==> !after_cleanup_valid_ids(s).0.valid.contains(x),
        key_at_most_once(s.auth, x) ==> !has_auth(after_cleanup_valid_ids(s).0.auth, x),
        has_auth(s.auth, x) && key_at_most_once(s.auth, x) ==> after_cleanup_valid_ids(s).1.contains(x),
{
    let v = make_room(s.valid, s.auth);
    crate::connection::lemma_first_unauth_from(s.valid, s.auth, 0);
    if s.valid.len() == crate::consts::connection::MAX_ALLOWED_CONNECTIONS {
        if let Some(i) = crate::connection::first_unauth_from(s.valid, s.auth, 0) {
            lemma_remove_ids(s.valid, i, x);
            if !v.contains(x) {
                lemma_drained_subset(v, s.auth, s.to_remove, x);
            }
        }
    }
    lemma_drained_drops(v, s.auth, s.to_remove, x);
}

} // verus!

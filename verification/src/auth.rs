//! The token that a client presents.

use crate::text;
use hyper::http::HeaderMap;
use hyper::http::HeaderValue;
use vstd::prelude::*;

verus! {

/// The header fields of a request, as the `http` crate holds them.
#[verifier::external_type_specification]
#[verifier::external_body]
#[verifier::reject_recursive_types(T)]
pub struct ExHeaderMap<T>(hyper::http::HeaderMap<T>);

/// The value of a header field.
#[verifier::external_type_specification]
#[verifier::external_body]
pub struct ExHeaderValue(hyper::http::HeaderValue);

/// The octets of the first value of each field, by the field's name in lower case.
pub uninterp spec fn header_fields(headers: HeaderMap<HeaderValue>) -> Map<Seq<char>, Seq<u8>>;

/// The octets of a field's value.
pub uninterp spec fn header_octets(value: HeaderValue) -> Seq<u8>;

/// The names and values that `form_urlencoded::parse` finds in a query, in order.
pub uninterp spec fn form_pairs(query: Seq<char>) -> Seq<(Seq<char>, Seq<char>)>;

/// Whether a field's name is written the way names are kept: in lower case, of letters and hyphens.
pub open spec fn lower_case_name(name: Seq<char>) -> bool {
    &&& name.len() > 0
    &&& forall|i: int| 0 <= i < name.len() ==> ('a' <= #[trigger] name[i] <= 'z' || name[i] == '-')
}

/// Whether an octet is a visible ASCII character, a space or a tab.
pub open spec fn visible(octet: u8) -> bool {
    32 <= octet < 127 || octet == 9
}

/// The text of a field's value, if all of it is visible ASCII.
pub open spec fn visible_text(octets: Seq<u8>) -> Option<Seq<char>> {
    if forall|i: int| 0 <= i < octets.len() ==> visible(#[trigger] octets[i]) {
        Some(octets.map_values(|octet: u8| octet as char))
    } else {
        None
    }
}

/// The text of a field, if it is there and all of it is visible ASCII.
pub open spec fn field_text(fields: Map<Seq<char>, Seq<u8>>, name: Seq<char>) -> Option<Seq<char>> {
    if fields.contains_key(name) {
        visible_text(fields[name])
    } else {
        None
    }
}

/// Whether a query's characters stand for themselves.
pub open spec fn plain(s: Seq<char>) -> bool {
    forall|i: int| 0 <= i < s.len() ==> #[trigger] s[i] != '&' && s[i] != '+' && s[i] != '%'
}

/// `http::HeaderMap::get`: the first value of the field that has the given name, which is looked up
/// in lower case.
#[verifier::external_body]
fn header_get<'a>(headers: &'a HeaderMap<HeaderValue>, name: &str) -> (r: Option<&'a HeaderValue>)
    requires
        lower_case_name(name@),
    ensures
        r is Some == header_fields(*headers).contains_key(name@),
        r matches Some(value) ==> header_octets(*value) == header_fields(*headers)[name@],
{
    headers.get(name)
}

/// `http::HeaderValue::to_str`: the characters of a value whose octets are all visible ASCII, or
/// none.
#[verifier::external_body]
fn header_to_str(value: &HeaderValue) -> (r: Option<&str>)
    ensures
        text::opt_text(r) == visible_text(header_octets(*value)),
{
    value.to_str().ok()
}

/// The views of a list of pairs of strings.
pub open spec fn pair_views(pairs: Seq<(String, String)>) -> Seq<(Seq<char>, Seq<char>)> {
    pairs.map_values(|p: (String, String)| (p.0@, p.1@))
}

/// `form_urlencoded::parse`: the names and values of a query, decoded. One name and one value with
/// an equals sign between them, in which no character has a meaning of its own, come out as they
/// stand.
#[verifier::external_body]
fn parse_form(query: &str) -> (r: Vec<(String, String)>)
    ensures
        pair_views(r@) == form_pairs(query@),
        forall|name: Seq<char>, value: Seq<char>|
            plain(name) && !name.contains('=') && plain(value) && query@ == #[trigger] (name.push(
                '=',
            ) + value) ==> pair_views(r@) == seq![(name, value)],
{
    url::form_urlencoded::parse(query.as_bytes()).into_owned().collect()
}

/// The value of the first pair that has the given name and a value that is not empty.
pub open spec fn first_value(pairs: Seq<(Seq<char>, Seq<char>)>, name: Seq<char>) -> Option<
    Seq<char>,
>
    decreases pairs.len(),
{
    if pairs.len() == 0 {
        None
    } else if pairs.first().0 == name && pairs.first().1.len() > 0 {
        Some(pairs.first().1)
    } else {
        first_value(pairs.drop_first(), name)
    }
}

/// `s` without white space at either end, if anything is left.
pub open spec fn filled(s: Seq<char>) -> Option<Seq<char>> {
    if text::trimmed(s).len() > 0 {
        Some(text::trimmed(s))
    } else {
        None
    }
}

/// The token in an `Authorization` field: what stands behind `Bearer `, or all of it.
pub open spec fn authorization_token(value: Seq<char>) -> Option<Seq<char>> {
    match text::without_prefix(value, "Bearer "@) {
        Some(rest) => match filled(rest) {
            Some(token) => Some(token),
            None => filled(value),
        },
        None => filled(value),
    }
}

/// The token in a header field, if the field is there.
pub open spec fn header_token(custom: Option<Seq<char>>, authorization: Option<Seq<char>>) -> Option<
    Seq<char>,
> {
    let from_custom = match custom {
        Some(value) => filled(value),
        None => None,
    };
    match from_custom {
        Some(token) => Some(token),
        None => match authorization {
            Some(value) => authorization_token(value),
            None => None,
        },
    }
}

/// The token that a client presents: that of the `X-SingleRPC-Auth` field, else that of the
/// `Authorization` field, else that of the query.
pub open spec fn presented_token(
    custom: Option<Seq<char>>,
    authorization: Option<Seq<char>>,
    pairs: Seq<(Seq<char>, Seq<char>)>,
) -> Option<Seq<char>> {
    match header_token(custom, authorization) {
        Some(token) => Some(token),
        None => first_value(pairs, "auth"@),
    }
}

/// The pairs of a query, if there is one.
pub open spec fn query_pairs(query: Option<Seq<char>>) -> Seq<(Seq<char>, Seq<char>)> {
    match query {
        Some(q) => form_pairs(q),
        None => Seq::empty(),
    }
}

/// The token that a request with the given fields and query presents.
pub open spec fn request_token(
    fields: Map<Seq<char>, Seq<u8>>,
    query: Option<Seq<char>>,
) -> Option<Seq<char>> {
    presented_token(
        field_text(fields, "x-singlerpc-auth"@),
        field_text(fields, "authorization"@),
        query_pairs(query),
    )
}

fn filled_text(s: &str) -> (r: Option<String>)
    ensures
        text::opt_string(r) == filled(s@),
{
    let trimmed = text::trim(s);
    if trimmed.is_empty() {
        None
    } else {
        Some(trimmed.to_owned())
    }
}

fn read_authorization(value: &str) -> (r: Option<String>)
    ensures
        text::opt_string(r) == authorization_token(value@),
{
    if let Some(rest) = text::strip_prefix(value, "Bearer ") {
        if let Some(token) = filled_text(rest) {
            return Some(token);
        }
    }
    filled_text(value)
}

fn auth_value(pairs: &Vec<(String, String)>) -> (r: Option<String>)
    ensures
        text::opt_string(r) == first_value(pair_views(pairs@), "auth"@),
{
    let ghost all = pair_views(pairs@);
    let mut i: usize = 0;
    assert(all.skip(0) =~= all);
    while i < pairs.len()
        invariant
            i <= pairs.len(),
            all == pair_views(pairs@),
            first_value(all.skip(i as int), "auth"@) == first_value(all, "auth"@),
        decreases pairs.len() - i,
    {
        assert(all.skip(i as int).first() == (pairs@[i as int].0@, pairs@[i as int].1@));
        if text::same_text(pairs[i].0.as_str(), "auth") && !pairs[i].1.as_str().is_empty() {
            return Some(pairs[i].1.clone());
        }
        assert(all.skip(i as int).drop_first() =~= all.skip(i + 1));
        i += 1;
    }
    None
}

/// The token in what was read of a request: the two fields, and the pairs of the query.
pub fn choose_token(
    custom: Option<&str>,
    authorization: Option<&str>,
    pairs: &Vec<(String, String)>,
) -> (r: Option<String>)
    ensures
        text::opt_string(r) == presented_token(
            text::opt_text(custom),
            text::opt_text(authorization),
            pair_views(pairs@),
        ),
{
    if let Some(value) = custom {
        if let Some(token) = filled_text(value) {
            return Some(token);
        }
    }
    if let Some(value) = authorization {
        if let Some(token) = read_authorization(value) {
            return Some(token);
        }
    }
    auth_value(pairs)
}

fn field<'a>(headers: &'a HeaderMap<HeaderValue>, name: &str) -> (r: Option<&'a str>)
    requires
        lower_case_name(name@),
    ensures
        text::opt_text(r) == field_text(header_fields(*headers), name@),
{
    match header_get(headers, name) {
        Some(value) => header_to_str(value),
        None => None,
    }
}

/// Whether a request presents a token of plain characters in its query, and none in a field.
pub open spec fn presents_in_query(
    fields: Map<Seq<char>, Seq<u8>>,
    query: Option<Seq<char>>,
    token: Seq<char>,
) -> bool {
    &&& plain(token)
    &&& token.len() > 0
    &&& query == Some("auth="@ + token)
    &&& header_token(
        field_text(fields, "x-singlerpc-auth"@),
        field_text(fields, "authorization"@),
    ) is None
}

/// The token that a request presents.
pub(crate) fn read_token(headers: &HeaderMap<HeaderValue>, query: Option<&str>) -> (r: Option<
    String,
>)
    ensures
        text::opt_string(r) == request_token(header_fields(*headers), text::opt_text(query)),
        forall|token: Seq<char>| #[trigger]
            presents_in_query(header_fields(*headers), text::opt_text(query), token)
                ==> text::opt_string(r) == Some(token),
{
    proof {
        reveal_strlit("x-singlerpc-auth");
        reveal_strlit("authorization");
    }
    let custom = field(headers, "x-singlerpc-auth");
    let authorization = field(headers, "authorization");
    let pairs: Vec<(String, String)> = match query {
        Some(query) => parse_form(query),
        None => Vec::new(),
    };
    proof {
        assert(query is None ==> pair_views(pairs@) =~= Seq::empty());
        reveal_strlit("auth=");
        reveal_strlit("auth");
        assert forall|token: Seq<char>| #[trigger]
            presents_in_query(
                header_fields(*headers),
                text::opt_text(query),
                token,
            ) implies first_value(pair_views(pairs@), "auth"@) == Some(token) by {
            assert("auth="@ + token =~= "auth"@.push('=') + token);
            assert(pair_views(pairs@) == seq![("auth"@, token)]);
        }
    }
    choose_token(custom, authorization, &pairs)
}

/// There are three ways to present a token that has no white space at its ends: in the
/// `X-SingleRPC-Auth` field, which goes before the others; behind `Bearer ` in the `Authorization`
/// field, which goes before the query; and in the query.
pub proof fn law_three_ways_to_present_a_token(
    token: Seq<char>,
    authorization: Option<Seq<char>>,
    pairs: Seq<(Seq<char>, Seq<char>)>,
)
    requires
        token.len() > 0,
        text::trimmed(token) == token,
    ensures
        presented_token(Some(token), authorization, pairs) == Some(token),
        presented_token(None, Some("Bearer "@ + token), pairs) == Some(token),
        presented_token(None, None, seq![("auth"@, token)] + pairs) == Some(token),
{
    let bearer = "Bearer "@ + token;
    assert(bearer.subrange(0, "Bearer "@.len() as int) =~= "Bearer "@);
    assert(bearer.skip("Bearer "@.len() as int) =~= token);
    let all = seq![("auth"@, token)] + pairs;
    assert(all.first() == ("auth"@, token));
}

/// Whether a token is what one of the fields holds, or what the query gives for it.
pub open spec fn stands_in(
    token: Seq<char>,
    custom: Option<Seq<char>>,
    authorization: Option<Seq<char>>,
    pairs: Seq<(Seq<char>, Seq<char>)>,
) -> bool {
    ||| custom is Some && text::trimmed(custom->0) == token
    ||| authorization is Some && text::trimmed(authorization->0) == token
    ||| authorization is Some && "Bearer "@.is_prefix_of(authorization->0) && text::trimmed(
        authorization->0.skip("Bearer "@.len() as int),
    ) == token
    ||| pairs.contains(("auth"@, token))
}

/// No token is made up: one that is presented is not empty, and stands in the request.
pub proof fn law_no_token_is_made_up(
    token: Seq<char>,
    custom: Option<Seq<char>>,
    authorization: Option<Seq<char>>,
    pairs: Seq<(Seq<char>, Seq<char>)>,
)
    requires
        presented_token(custom, authorization, pairs) == Some(token),
    ensures
        token.len() > 0,
        stands_in(token, custom, authorization, pairs),
{
    if header_token(custom, authorization) is None {
        lemma_first_value(pairs, "auth"@);
    }
}

proof fn lemma_first_value(pairs: Seq<(Seq<char>, Seq<char>)>, name: Seq<char>)
    ensures
        first_value(pairs, name) matches Some(value) ==> value.len() > 0 && pairs.contains(
            (name, value),
        ),
    decreases pairs.len(),
{
    if pairs.len() > 0 {
        let rest = pairs.drop_first();
        lemma_first_value(rest, name);
        if let Some(value) = first_value(pairs, name) {
            if pairs.first() == (name, value) {
                assert(pairs[0] == (name, value));
            } else {
                let i = rest.index_of((name, value));
                assert(pairs[i + 1] == (name, value));
            }
        }
    }
}

/// A field's text is its octets, read as ASCII, if each of them is a visible character, a space or a tab.
pub proof fn law_a_field_is_read_as_visible_ascii(
    fields: Map<Seq<char>, Seq<u8>>,
    name: Seq<char>,
)
    ensures
        !fields.contains_key(name) ==> field_text(fields, name) is None,
        fields.contains_key(name) ==> ({
            let octets = fields[name];
            if forall|i: int|
                0 <= i < octets.len() ==> 32 <= (#[trigger] octets[i]) <= 126 || octets[i] == 9 {
                &&& field_text(fields, name) is Some
                &&& field_text(fields, name)->0.len() == octets.len()
                &&& forall|i: int|
                    0 <= i < octets.len() ==> (#[trigger] field_text(fields, name)->0[i])
                        == octets[i] as char
            } else {
                field_text(fields, name) is None
            }
        }),
{
    if fields.contains_key(name) {
        let octets = fields[name];
        assert((forall|i: int|
            0 <= i < octets.len() ==> 32 <= (#[trigger] octets[i]) <= 126 || octets[i] == 9)
            == (forall|i: int| 0 <= i < octets.len() ==> visible(#[trigger] octets[i]))) by {
            if forall|i: int| 0 <= i < octets.len() ==> visible(#[trigger] octets[i]) {
                assert forall|i: int| 0 <= i < octets.len() implies 32 <= (#[trigger] octets[i])
                    <= 126 || octets[i] == 9 by {
                    assert(visible(octets[i]));
                }
            }
            if forall|i: int|
                0 <= i < octets.len() ==> 32 <= (#[trigger] octets[i]) <= 126 || octets[i] == 9 {
                assert forall|i: int| 0 <= i < octets.len() implies visible(
                    #[trigger] octets[i],
                ) by {
                    assert(32 <= octets[i] <= 126 || octets[i] == 9);
                }
            }
        }
    }
}

/// A request presents what stands in its `X-SingleRPC-Auth` field, unless that is blank, whatever else it
/// holds.
pub proof fn law_the_custom_field_goes_first(
    value: Seq<char>,
    authorization: Option<Seq<char>>,
    pairs: Seq<(Seq<char>, Seq<char>)>,
)
    ensures
        text::trimmed(value).len() > 0 ==> presented_token(Some(value), authorization, pairs)
            == Some(text::trimmed(value)),
        text::trimmed(value).len() == 0 ==> presented_token(Some(value), authorization, pairs)
            == presented_token(None, authorization, pairs),
{
}

/// Else it presents what stands in its `Authorization` field: what is behind `Bearer `, unless that is
/// blank, and else the whole of it, unless that is blank, whatever the query holds.
pub proof fn law_the_authorization_field_goes_second(
    value: Seq<char>,
    rest: Seq<char>,
    pairs: Seq<(Seq<char>, Seq<char>)>,
)
    ensures
        ({
            let bearer = seq!['B', 'e', 'a', 'r', 'e', 'r', ' '];
            &&& value == bearer + rest && text::trimmed(rest).len() > 0 ==> presented_token(
                None,
                Some(value),
                pairs,
            ) == Some(text::trimmed(rest))
            &&& (!bearer.is_prefix_of(value) || text::trimmed(
                value.skip(bearer.len() as int),
            ).len() == 0) && text::trimmed(value).len() > 0 ==> presented_token(
                None,
                Some(value),
                pairs,
            ) == Some(text::trimmed(value))
            &&& text::trimmed(value).len() == 0 && !bearer.is_prefix_of(value) ==> presented_token(
                None,
                Some(value),
                pairs,
            ) == presented_token(None, None, pairs)
        }),
{
    reveal_strlit("Bearer ");
    assert("Bearer "@ =~= seq!['B', 'e', 'a', 'r', 'e', 'r', ' ']);
    text::law_a_string_is_its_prefix_and_the_rest(value, "Bearer "@, rest);
}

proof fn lemma_first_value_at(pairs: Seq<(Seq<char>, Seq<char>)>, name: Seq<char>, i: int)
    requires
        0 <= i <= pairs.len(),
        i < pairs.len() ==> pairs[i].0 == name && pairs[i].1.len() > 0,
        forall|j: int| 0 <= j < i ==> (#[trigger] pairs[j]).0 != name || pairs[j].1.len() == 0,
    ensures
        i < pairs.len() ==> first_value(pairs, name) == Some(pairs[i].1),
        i == pairs.len() ==> first_value(pairs, name) is None,
    decreases i,
{
    if i > 0 {
        let rest = pairs.drop_first();
        assert(pairs[0].0 != name || pairs[0].1.len() == 0);
        assert forall|j: int| 0 <= j < i - 1 implies (#[trigger] rest[j]).0 != name
            || rest[j].1.len() == 0 by {
            assert(rest[j] == pairs[j + 1]);
        }
        lemma_first_value_at(rest, name, i - 1);
    }
}

/// Else it presents the first value of `auth` in its query that is not empty. Where there is none, it
/// presents no token.
pub proof fn law_the_query_goes_last(pairs: Seq<(Seq<char>, Seq<char>)>, i: int)
    requires
        ({
            let auth = seq!['a', 'u', 't', 'h'];
            &&& 0 <= i <= pairs.len()
            &&& i < pairs.len() ==> pairs[i].0 == auth && pairs[i].1.len() > 0
            &&& forall|j: int|
                0 <= j < i ==> (#[trigger] pairs[j]).0 != auth || pairs[j].1.len() == 0
        }),
    ensures
        i < pairs.len() ==> presented_token(None, None, pairs) == Some(pairs[i].1),
        i == pairs.len() ==> presented_token(None, None, pairs) is None,
{
    reveal_strlit("auth");
    assert("auth"@ =~= seq!['a', 'u', 't', 'h']);
    lemma_first_value_at(pairs, "auth"@, i);
}

/// The token of a request is read from the two fields and from the pairs of its query, if it has one.
pub proof fn law_where_a_token_is_read(
    fields: Map<Seq<char>, Seq<u8>>,
    query: Option<Seq<char>>,
)
    ensures
        query matches Some(q) ==> request_token(fields, query) == presented_token(
            field_text(fields, "x-singlerpc-auth"@),
            field_text(fields, "authorization"@),
            form_pairs(q),
        ),
        query is None ==> request_token(fields, query) == presented_token(
            field_text(fields, "x-singlerpc-auth"@),
            field_text(fields, "authorization"@),
            Seq::empty(),
        ),
{
}

/// Pairs of strings are seen as they are.
pub proof fn law_pairs_are_seen_as_they_are(pairs: Seq<(String, String)>, i: int)
    ensures
        pair_views(pairs).len() == pairs.len(),
        0 <= i < pairs.len() ==> pair_views(pairs)[i] == (pairs[i].0@, pairs[i].1@),
{
}

} // verus!

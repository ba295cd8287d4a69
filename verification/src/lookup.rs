//! The `sr_contract_chains` method: on which chains is there code at an address?
//!
//! Here stand the reading of the request, the question put to each chain, the reading of a chain's
//! answer, and the reply to the client.

use crate::json;
use crate::json::Json;
use crate::json::Tree;
use crate::text;
use vstd::prelude::*;

verus! {

/// The characters of an optional member that is a string.
pub open spec fn member_text(tree: Tree, name: Seq<char>) -> Option<Seq<char>> {
    match tree.member(name) {
        Some(member) => member.text(),
        None => None,
    }
}

/// The strings among a list of documents, in order.
pub open spec fn strings_among(items: Seq<Tree>) -> Seq<Seq<char>>
    decreases items.len(),
{
    if items.len() == 0 {
        Seq::empty()
    } else {
        let before = strings_among(items.drop_last());
        match items.last().text() {
            Some(s) => before.push(s),
            None => before,
        }
    }
}

/// The chain names that a document lists: the strings of an array that holds any.
pub open spec fn chain_list(tree: Tree) -> Option<Seq<Seq<char>>> {
    match tree {
        Tree::Array(items) => if strings_among(items).len() > 0 {
            Some(strings_among(items))
        } else {
            None
        },
        _ => None,
    }
}

/// The chain names that an optional document lists.
pub open spec fn opt_chain_list(tree: Option<Tree>) -> Option<Seq<Seq<char>>> {
    match tree {
        Some(t) => chain_list(t),
        None => None,
    }
}

/// What a document with `address` and `chains` members asks for.
pub open spec fn named_params(tree: Tree, refusal: Seq<char>) -> Result<
    (Seq<char>, Option<Seq<Seq<char>>>),
    Seq<char>,
> {
    match member_text(tree, "address"@) {
        Some(address) => Ok((address, opt_chain_list(tree.member("chains"@)))),
        None => Err(refusal),
    }
}

/// What a document with a list of parameters asks for: the address, then the chains.
pub open spec fn listed_params(items: Seq<Tree>) -> Result<
    (Seq<char>, Option<Seq<Seq<char>>>),
    Seq<char>,
> {
    match items[0].text() {
        Some(address) => Ok(
            (
                address,
                if items.len() > 1 {
                    chain_list(items[1])
                } else {
                    None
                },
            ),
        ),
        None => Err("params[0] must be the contract address string"@),
    }
}

/// What a request asks for: an address, and the chains to look at if it names any. A request
/// either has a `method`, which must be the right one, with its parameters in `params`, or is
/// itself the object that holds the parameters.
pub open spec fn contract_params(request: Tree) -> Result<
    (Seq<char>, Option<Seq<Seq<char>>>),
    Seq<char>,
> {
    match member_text(request, "method"@) {
        Some(method) => if method != "sr_contract_chains"@ {
            Err("invalid method; expected sr_contract_chains"@)
        } else {
            match request.member("params"@) {
                Some(Tree::Array(items)) => if items.len() > 0 {
                    listed_params(items)
                } else {
                    Err("address is required"@)
                },
                Some(Tree::Object(members)) => named_params(
                    Tree::Object(members),
                    "params.address is required"@,
                ),
                _ => Err("address is required"@),
            }
        },
        None => named_params(request, "address is required"@),
    }
}

/// The views of an optional list of strings.
pub open spec fn opt_texts(s: Option<Vec<String>>) -> Option<Seq<Seq<char>>> {
    match s {
        Some(list) => Some(text::texts(list@)),
        None => None,
    }
}

/// The view of what a request asks for.
pub open spec fn params_view(r: Result<(String, Option<Vec<String>>), String>) -> Result<
    (Seq<char>, Option<Seq<Seq<char>>>),
    Seq<char>,
> {
    match r {
        Ok(params) => Ok((params.0@, opt_texts(params.1))),
        Err(message) => Err(message@),
    }
}

/// The chain names that a document lists.
pub fn parse_chain_list(v: &Json) -> (r: Option<Vec<String>>)
    ensures
        opt_texts(r) == chain_list(v.tree()),
{
    match v {
        Json::Array(items) => {
            let mut chains: Vec<String> = Vec::new();
            let ghost all = json::trees(items@);
            let mut i: usize = 0;
            assert(text::texts(chains@) =~= strings_among(all.take(0)));
            while i < items.len()
                invariant
                    i <= items.len(),
                    all == json::trees(items@),
                    text::texts(chains@) == strings_among(all.take(i as int)),
                decreases items.len() - i,
            {
                assert(all.take(i + 1).drop_last() =~= all.take(i as int));
                assert(all.take(i + 1).last() == items@[i as int].tree());
                if let Some(s) = items[i].as_str() {
                    let ghost before = chains@;
                    chains.push(s.to_owned());
                    assert(text::texts(chains@) =~= text::texts(before).push(s@));
                }
                i += 1;
            }
            assert(all.take(i as int) =~= all);
            if chains.len() == 0 {
                None
            } else {
                Some(chains)
            }
        },
        _ => None,
    }
}

fn read_named_params(v: &Json, refusal: &str) -> (r: Result<
    (String, Option<Vec<String>>),
    String,
>)
    ensures
        params_view(r) == named_params(v.tree(), refusal@),
{
    let address: Option<&str> = match v.get("address") {
        Some(member) => member.as_str(),
        None => None,
    };
    match address {
        Some(address) => {
            let chains: Option<Vec<String>> = match v.get("chains") {
                Some(member) => parse_chain_list(member),
                None => None,
            };
            Ok((address.to_owned(), chains))
        },
        None => Err(refusal.to_owned()),
    }
}

/// What a request asks for: an address, and the chains to look at if it names any.
pub fn extract_contract_params(v: &Json) -> (r: Result<(String, Option<Vec<String>>), String>)
    ensures
        params_view(r) == contract_params(v.tree()),
{
    let method: Option<&str> = match v.get("method") {
        Some(member) => member.as_str(),
        None => None,
    };
    match method {
        Some(method) => {
            if !text::same_text(method, "sr_contract_chains") {
                return Err("invalid method; expected sr_contract_chains".to_owned());
            }
            match v.get("params") {
                Some(Json::Array(items)) => {
                    if items.len() == 0 {
                        return Err("address is required".to_owned());
                    }
                    assert(json::trees(items@)[0] == items@[0].tree());
                    match items[0].as_str() {
                        Some(address) => {
                            let chains: Option<Vec<String>> = if items.len() > 1 {
                                assert(json::trees(items@)[1] == items@[1].tree());
                                parse_chain_list(&items[1])
                            } else {
                                None
                            };
                            Ok((address.to_owned(), chains))
                        },
                        None => Err("params[0] must be the contract address string".to_owned()),
                    }
                },
                Some(params) => match params {
                    Json::Object(_) => read_named_params(params, "params.address is required"),
                    _ => Err("address is required".to_owned()),
                },
                None => Err("address is required".to_owned()),
            }
        },
        None => read_named_params(v, "address is required"),
    }
}

/// Whether what a chain answers stands for no code: nothing but white space, or `0x` with nothing
/// but zeros behind it.
pub open spec fn no_code(code: Seq<char>) -> bool {
    let t = text::trimmed(code);
    ||| t.len() == 0
    ||| text::without_prefix(t, "0x"@) matches Some(digits) && all_zeros(digits)
    ||| text::without_prefix(t, "0X"@) matches Some(digits) && all_zeros(digits)
}

/// Whether every character is a zero digit.
pub open spec fn all_zeros(s: Seq<char>) -> bool {
    forall|i: int| 0 <= i < s.len() ==> s[i] == '0'
}

fn is_all_zeros(s: &str) -> (r: bool)
    ensures
        r == all_zeros(s@),
{
    for c in it: s.chars()
        invariant
            it.seq() == s@,
            forall|i: int| 0 <= i < it.index() ==> s@[i] == '0',
    {
        if c != '0' {
            assert(s@[it.index() as int] != '0');
            return false;
        }
    }
    true
}

/// Whether what a chain answers stands for no code.
pub fn code_is_empty(code: &str) -> (r: bool)
    ensures
        r == no_code(code@),
{
    let trimmed = text::trim(code);
    if trimmed.is_empty() {
        return true;
    }
    proof {
        reveal_strlit("0x");
        reveal_strlit("0X");
        if "0x"@.is_prefix_of(trimmed@) && "0X"@.is_prefix_of(trimmed@) {
            assert("0x"@[1] == trimmed@[1] && "0X"@[1] == trimmed@[1]);
        }
    }
    match text::strip_prefix(trimmed, "0x") {
        Some(digits) => is_all_zeros(digits),
        None => match text::strip_prefix(trimmed, "0X") {
            Some(digits) => is_all_zeros(digits),
            None => false,
        },
    }
}

/// The question put to a chain: the code at an address in the latest block.
pub open spec fn code_question(address: Seq<char>) -> Tree {
    Tree::Object(
        map![
            "jsonrpc"@ => Tree::Text("2.0"@),
            "id"@ => Tree::Text("sr_contract_chains"@),
            "method"@ => Tree::Text("eth_getCode"@),
            "params"@ => Tree::Array(seq![Tree::Text(address), Tree::Text("latest"@)]),
        ],
    )
}

/// What is recorded of a chain that answered with code.
pub open spec fn code_record(code: Seq<char>) -> Tree {
    Tree::Object(map!["exists"@ => Tree::Bool(!no_code(code)), "code"@ => Tree::Text(code)])
}

/// What is recorded of a chain that gave no answer.
pub open spec fn failure_record(error: Seq<char>) -> Tree {
    Tree::Object(map!["exists"@ => Tree::Bool(false), "error"@ => Tree::Text(error)])
}

/// The `id` that a reply carries: that of the request, or null.
pub open spec fn reply_id(id: Option<Tree>) -> Tree {
    match id {
        Some(tree) => tree,
        None => Tree::Null,
    }
}

/// The reply to a request that asks for nothing that can be looked up.
pub open spec fn refusal_reply(id: Option<Tree>, message: Seq<char>) -> Tree {
    Tree::Object(
        map![
            "jsonrpc"@ => Tree::Text("2.0"@),
            "id"@ => reply_id(id),
            "error"@ => Tree::Object(
                map![
                    "code"@ => Tree::Number(json::json_integer(-32602)),
                    "message"@ => Tree::Text(message),
                ],
            ),
        ],
    )
}

/// The reply with what is recorded of each chain.
pub open spec fn lookup_reply(
    id: Option<Tree>,
    address: Seq<char>,
    records: Map<Seq<char>, Tree>,
) -> Tree {
    Tree::Object(
        map![
            "jsonrpc"@ => Tree::Text("2.0"@),
            "id"@ => reply_id(id),
            "result"@ => Tree::Object(
                map!["address"@ => Tree::Text(address), "chains"@ => Tree::Object(records)],
            ),
        ],
    )
}

fn with_member(members: Vec<(String, Json)>, name: &str, value: Json) -> (r: Vec<(String, Json)>)
    ensures
        json::member_trees(r@) == json::member_trees(members@).insert(name@, value.tree()),
{
    let mut r = members;
    r.push((name.to_owned(), value));
    assert(r@.drop_last() =~= members@);
    r
}

fn text_value(s: &str) -> (r: Json)
    ensures
        r.tree() == Tree::Text(s@),
{
    Json::Text(s.to_owned())
}

/// The question put to a chain: the code at an address in the latest block.
pub fn ask_for_code(address: &str) -> (r: Json)
    ensures
        r.tree() == code_question(address@),
{
    let mut params: Vec<Json> = Vec::new();
    params.push(text_value(address));
    params.push(text_value("latest"));
    assert(json::trees(params@) =~= seq![Tree::Text(address@), Tree::Text("latest"@)]);
    let members = with_member(Vec::new(), "jsonrpc", text_value("2.0"));
    let members = with_member(members, "id", text_value("sr_contract_chains"));
    let members = with_member(members, "method", text_value("eth_getCode"));
    Json::Object(with_member(members, "params", Json::Array(params)))
}

/// What is recorded of a chain that answered with code.
pub fn record_code(code: String) -> (r: Json)
    ensures
        r.tree() == code_record(code@),
{
    let exists = !code_is_empty(code.as_str());
    let members = with_member(Vec::new(), "exists", Json::Bool(exists));
    Json::Object(with_member(members, "code", Json::Text(code)))
}

/// What is recorded of a chain that gave no answer.
pub fn record_failure(error: &str) -> (r: Json)
    ensures
        r.tree() == failure_record(error@),
{
    let members = with_member(Vec::new(), "exists", Json::Bool(false));
    Json::Object(with_member(members, "error", text_value(error)))
}

/// What an optional document says.
pub open spec fn opt_json(json: Option<Json>) -> Option<Tree> {
    match json {
        Some(j) => Some(j.tree()),
        None => None,
    }
}

fn id_or_null(id: Option<Json>) -> (r: Json)
    ensures
        r.tree() == reply_id(opt_json(id)),
{
    match id {
        Some(json) => json,
        None => Json::Null,
    }
}

/// The reply to a request that asks for nothing that can be looked up.
pub fn refuse_lookup(id: Option<Json>, message: &str) -> (r: Json)
    ensures
        r.tree() == refusal_reply(opt_json(id), message@),
{
    let error = with_member(Vec::new(), "code", Json::Number(json::integer(-32602)));
    let error = with_member(error, "message", text_value(message));
    let members = with_member(Vec::new(), "jsonrpc", text_value("2.0"));
    let members = with_member(members, "id", id_or_null(id));
    Json::Object(with_member(members, "error", Json::Object(error)))
}

/// The reply with what is recorded of each chain.
pub fn answer_lookup(id: Option<Json>, address: &str, records: Vec<(String, Json)>) -> (r: Json)
    ensures
        r.tree() == lookup_reply(opt_json(id), address@, json::member_trees(records@)),
{
    let result = with_member(Vec::new(), "address", text_value(address));
    let result = with_member(result, "chains", Json::Object(records));
    let members = with_member(Vec::new(), "jsonrpc", text_value("2.0"));
    let members = with_member(members, "id", id_or_null(id));
    Json::Object(with_member(members, "result", Json::Object(result)))
}

/// What an endpoint's reply to the question for code comes to.
pub enum CodeAnswer {
    /// The code.
    Code(String),
    /// The endpoint answered with an error of its own; the message says which.
    Refused(String),
    /// The reply is no answer to the question.
    Unusable,
}

/// What an endpoint's reply comes to, for specifications.
pub enum CodeAnswerView {
    Code(Seq<char>),
    Refused(Seq<char>),
    Unusable,
}

impl View for CodeAnswer {
    type V = CodeAnswerView;

    open spec fn view(&self) -> CodeAnswerView {
        match self {
            CodeAnswer::Code(code) => CodeAnswerView::Code(code@),
            CodeAnswer::Refused(message) => CodeAnswerView::Refused(message@),
            CodeAnswer::Unusable => CodeAnswerView::Unusable,
        }
    }
}

/// What a reply that is a JSON document comes to: an `error` member goes before a `result`.
pub open spec fn code_answer_in(reply: Tree) -> CodeAnswerView {
    match reply.member("error"@) {
        Some(error) => CodeAnswerView::Refused("json-rpc error: "@ + json::rendered_json(error)),
        None => match member_text(reply, "result"@) {
            Some(code) => CodeAnswerView::Code(code),
            None => CodeAnswerView::Unusable,
        },
    }
}

/// What the bytes of a reply come to.
pub open spec fn code_answer(body: Seq<u8>) -> CodeAnswerView {
    match json::parsed_json(body) {
        Ok(reply) => code_answer_in(reply),
        Err(_) => CodeAnswerView::Unusable,
    }
}

/// What a reply that is a JSON document comes to.
pub fn judge_reply(reply: Json) -> (r: CodeAnswer)
    ensures
        r@ == code_answer_in(reply.tree()),
{
    let code: Option<String> = match reply.get("result") {
        Some(member) => match member.as_str() {
            Some(code) => Some(code.to_owned()),
            None => None,
        },
        None => None,
    };
    match reply.into_member("error") {
        Some(error) => {
            let mut message = "json-rpc error: ".to_owned();
            message.append(error.render().as_str());
            CodeAnswer::Refused(message)
        },
        None => match code {
            Some(code) => CodeAnswer::Code(code),
            None => CodeAnswer::Unusable,
        },
    }
}

/// What the bytes of a reply come to.
pub fn read_code_answer(body: &[u8]) -> (r: CodeAnswer)
    ensures
        r@ == code_answer(body@),
{
    match Json::parse(body) {
        Ok(reply) => judge_reply(reply),
        Err(_) => CodeAnswer::Unusable,
    }
}

/// A reply with an `error` member, whatever it holds, is refused with the text of that member. One
/// without, whose `result` is a string, is an answer with that string, whatever other members it has.
/// Every other reply, and one that is no object, is of no use.
pub proof fn law_a_reply_is_judged_by_error_and_result(members: Map<Seq<char>, Tree>, other: Tree)
    requires
        !(other is Object),
    ensures
        members.contains_key("error"@) ==> code_answer_in(Tree::Object(members))
            == CodeAnswerView::Refused(
            "json-rpc error: "@ + json::rendered_json(members["error"@]),
        ),
        !members.contains_key("error"@) && members.contains_key("result"@) ==> (
        members["result"@] matches Tree::Text(s) ==> code_answer_in(Tree::Object(members))
            == CodeAnswerView::Code(s)),
        !members.contains_key("error"@) && !(members.contains_key("result"@)
            && members["result"@] is Text) ==> code_answer_in(Tree::Object(members))
            == CodeAnswerView::Unusable,
        code_answer_in(other) == CodeAnswerView::Unusable,
{
}

/// Members of a reply that are neither `error` nor `result` have no say in how it is judged.
pub proof fn law_other_members_of_a_reply_do_not_count(
    members: Map<Seq<char>, Tree>,
    name: Seq<char>,
    value: Tree,
)
    requires
        name != "error"@,
        name != "result"@,
    ensures
        code_answer_in(Tree::Object(members.insert(name, value))) == code_answer_in(
            Tree::Object(members),
        ),
        code_answer_in(Tree::Object(members.remove(name))) == code_answer_in(Tree::Object(members)),
{
}

/// The bytes of a reply come to what the document comes to that they spell, and to nothing of use where
/// they spell none.
pub proof fn law_bytes_come_to_what_they_spell(body: Seq<u8>)
    ensures
        json::parsed_json(body) matches Ok(reply) ==> code_answer(body) == code_answer_in(reply),
        json::parsed_json(body) is Err ==> code_answer(body) == CodeAnswerView::Unusable,
{
}

/// The strings among a list are those of its beginning, and the last item if it is one.
pub proof fn law_strings_are_picked_one_by_one(items: Seq<Tree>, item: Tree)
    ensures
        strings_among(Seq::empty()) == Seq::<Seq<char>>::empty(),
        item matches Tree::Text(s) ==> strings_among(items.push(item)) == strings_among(items).push(
            s,
        ),
        !(item is Text) ==> strings_among(items.push(item)) == strings_among(items),
{
    assert(items.push(item).drop_last() =~= items);
}

/// A list of chains is the strings of an array that holds any; nothing else is one.
pub proof fn law_a_chain_list_is_the_strings_of_an_array(tree: Tree)
    ensures
        tree matches Tree::Array(items) ==> (if strings_among(items).len() > 0 {
            chain_list(tree) == Some(strings_among(items))
        } else {
            chain_list(tree) is None
        }),
        !(tree is Array) ==> chain_list(tree) is None,
{
}

/// The chains that an object of parameters names.
pub open spec fn named_chains(members: Map<Seq<char>, Tree>) -> Option<Seq<Seq<char>>> {
    if members.contains_key("chains"@) {
        chain_list(members["chains"@])
    } else {
        None
    }
}

/// Whether a member is a string.
pub open spec fn has_text(members: Map<Seq<char>, Tree>, name: Seq<char>) -> bool {
    members.contains_key(name) && members[name] is Text
}

/// A request without the name of a method is the object of its own parameters: it asks for the address
/// and the chains that it holds.
pub proof fn law_a_request_without_a_method_holds_its_parameters(
    request: Map<Seq<char>, Tree>,
    other: Tree,
)
    requires
        !has_text(request, "method"@),
        !(other is Object),
    ensures
        has_text(request, "address"@) ==> contract_params(Tree::Object(request)) == Ok::<
            (Seq<char>, Option<Seq<Seq<char>>>),
            Seq<char>,
        >((request["address"@]->Text_0, named_chains(request))),
        !has_text(request, "address"@) ==> contract_params(Tree::Object(request)) == Err::<
            (Seq<char>, Option<Seq<Seq<char>>>),
            Seq<char>,
        >("address is required"@),
        contract_params(other) == Err::<(Seq<char>, Option<Seq<Seq<char>>>), Seq<char>>(
            "address is required"@,
        ),
{
}

/// A request with the name of a method must name the right one. Its parameters are an array, with the
/// address first and the chains behind it, or an object that holds both.
pub proof fn law_a_request_with_a_method_has_its_parameters_apart(request: Map<Seq<char>, Tree>)
    requires
        has_text(request, "method"@),
    ensures
        request["method"@] != Tree::Text("sr_contract_chains"@) ==> contract_params(
            Tree::Object(request),
        ) == Err::<(Seq<char>, Option<Seq<Seq<char>>>), Seq<char>>(
            "invalid method; expected sr_contract_chains"@,
        ),
        request["method"@] == Tree::Text("sr_contract_chains"@) ==> {
            let asked = contract_params(Tree::Object(request));
            let given = request["params"@];
            &&& !request.contains_key("params"@) || !(given is Array || given is Object)
                ==> asked == Err::<(Seq<char>, Option<Seq<Seq<char>>>), Seq<char>>(
                "address is required"@,
            )
            &&& request.contains_key("params"@) ==> (given matches Tree::Array(items) ==> {
                &&& items.len() == 0 ==> asked == Err::<
                    (Seq<char>, Option<Seq<Seq<char>>>),
                    Seq<char>,
                >("address is required"@)
                &&& items.len() > 0 && !(items[0] is Text) ==> asked == Err::<
                    (Seq<char>, Option<Seq<Seq<char>>>),
                    Seq<char>,
                >("params[0] must be the contract address string"@)
                &&& items.len() == 1 && items[0] is Text ==> asked == Ok::<
                    (Seq<char>, Option<Seq<Seq<char>>>),
                    Seq<char>,
                >((items[0]->Text_0, None))
                &&& items.len() > 1 && items[0] is Text ==> asked == Ok::<
                    (Seq<char>, Option<Seq<Seq<char>>>),
                    Seq<char>,
                >((items[0]->Text_0, chain_list(items[1])))
            })
            &&& request.contains_key("params"@) ==> (given matches Tree::Object(members) ==> {
                &&& has_text(members, "address"@) ==> asked == Ok::<
                    (Seq<char>, Option<Seq<Seq<char>>>),
                    Seq<char>,
                >((members["address"@]->Text_0, named_chains(members)))
                &&& !has_text(members, "address"@) ==> asked == Err::<
                    (Seq<char>, Option<Seq<Seq<char>>>),
                    Seq<char>,
                >("params.address is required"@)
            })
        },
{
}

/// An answer stands for no code exactly when, without the white space at its ends, it is empty or is `0x`
/// or `0X` with nothing but zeros behind.
pub proof fn law_no_code_is_nothing_or_zeros(a: Seq<char>, t: Seq<char>, b: Seq<char>)
    requires
        text::all_white(a),
        text::all_white(b),
        t.len() > 0 ==> !text::white_space(t[0]) && !text::white_space(t[t.len() - 1]),
    ensures
        no_code(a + t + b) <==> (t.len() == 0 || (t.len() >= 2 && t[0] == '0' && (t[1] == 'x' || t[1]
            == 'X') && forall|i: int| 2 <= i < t.len() ==> (#[trigger] t[i]) == '0')),
{
    text::law_trimming_takes_what_is_white_at_the_ends(a, t, b);
    reveal_strlit("0x");
    reveal_strlit("0X");
    if t.len() >= 2 {
        let digits = t.skip(2);
        assert(t[0] == '0' && t[1] == 'x' ==> "0x"@.is_prefix_of(t)) by {
            if t[0] == '0' && t[1] == 'x' {
                assert(t.subrange(0, 2) =~= "0x"@);
            }
        }
        assert(t[0] == '0' && t[1] == 'X' ==> "0X"@.is_prefix_of(t)) by {
            if t[0] == '0' && t[1] == 'X' {
                assert(t.subrange(0, 2) =~= "0X"@);
            }
        }
        if "0x"@.is_prefix_of(t) {
            assert("0x"@[0] == t[0] && "0x"@[1] == t[1]);
        }
        if "0X"@.is_prefix_of(t) {
            assert("0X"@[0] == t[0] && "0X"@[1] == t[1]);
        }
        assert(all_zeros(digits) <==> forall|i: int| 2 <= i < t.len() ==> (#[trigger] t[i]) == '0')
            by {
            if all_zeros(digits) {
                assert forall|i: int| 2 <= i < t.len() implies (#[trigger] t[i]) == '0' by {
                    assert(digits[i - 2] == t[i]);
                }
            }
            if forall|i: int| 2 <= i < t.len() ==> (#[trigger] t[i]) == '0' {
                assert forall|i: int| 0 <= i < digits.len() implies digits[i] == '0' by {
                    assert(t[i + 2] == '0');
                }
            }
        }
    }
}

/// What is sent to a chain, and what is said to the client, member by member.
pub proof fn law_documents_of_a_lookup(
    address: Seq<char>,
    code: Seq<char>,
    message: Seq<char>,
    id: Option<Tree>,
    records: Map<Seq<char>, Tree>,
)
    ensures
        code_question(address) == Tree::Object(
            Map::empty().insert("jsonrpc"@, Tree::Text("2.0"@)).insert(
                "id"@,
                Tree::Text("sr_contract_chains"@),
            ).insert("method"@, Tree::Text("eth_getCode"@)).insert(
                "params"@,
                Tree::Array(seq![Tree::Text(address), Tree::Text("latest"@)]),
            ),
        ),
        code_record(code) == Tree::Object(
            Map::empty().insert("exists"@, Tree::Bool(!no_code(code))).insert(
                "code"@,
                Tree::Text(code),
            ),
        ),
        failure_record(message) == Tree::Object(
            Map::empty().insert("exists"@, Tree::Bool(false)).insert("error"@, Tree::Text(message)),
        ),
        id is None ==> reply_id(id) == Tree::Null,
        id matches Some(tree) ==> reply_id(id) == tree,
        refusal_reply(id, message) == Tree::Object(
            Map::empty().insert("jsonrpc"@, Tree::Text("2.0"@)).insert("id"@, reply_id(id)).insert(
                "error"@,
                Tree::Object(
                    Map::empty().insert("code"@, Tree::Number(json::json_integer(-32602))).insert(
                        "message"@,
                        Tree::Text(message),
                    ),
                ),
            ),
        ),
        lookup_reply(id, address, records) == Tree::Object(
            Map::empty().insert("jsonrpc"@, Tree::Text("2.0"@)).insert("id"@, reply_id(id)).insert(
                "result"@,
                Tree::Object(
                    Map::empty().insert("address"@, Tree::Text(address)).insert(
                        "chains"@,
                        Tree::Object(records),
                    ),
                ),
            ),
        ),
{
}

/// The three ways to ask for an address on some chains ask for the same.
pub proof fn law_three_ways_to_ask_for_the_same(address: Seq<char>, chains: Tree)
    ensures
        ({
            let plain = Map::<Seq<char>, Tree>::empty().insert(
                "address"@,
                Tree::Text(address),
            ).insert("chains"@, chains);
            let call = Map::<Seq<char>, Tree>::empty().insert(
                "method"@,
                Tree::Text("sr_contract_chains"@),
            );
            let by_name = call.insert("params"@, Tree::Object(plain));
            let by_place = call.insert("params"@, Tree::Array(seq![Tree::Text(address), chains]));
            &&& contract_params(Tree::Object(plain)) == Ok::<
                (Seq<char>, Option<Seq<Seq<char>>>),
                Seq<char>,
            >((address, chain_list(chains)))
            &&& contract_params(Tree::Object(by_name)) == contract_params(Tree::Object(plain))
            &&& contract_params(Tree::Object(by_place)) == contract_params(Tree::Object(plain))
        }),
{
    reveal_strlit("address");
    reveal_strlit("chains");
    reveal_strlit("method");
    reveal_strlit("params");
    assert("address"@.len() == 7 && "chains"@.len() == 6 && "method"@.len() == 6 && "params"@.len()
        == 6);
    assert("method"@[0] == 'm' && "params"@[0] == 'p' && "chains"@[0] == 'c');
}

/// What is read of a request and of a reply is seen as it is.
pub proof fn law_what_is_read_is_seen_as_it_is(
    address: String,
    chains: Option<Vec<String>>,
    message: String,
    answer: CodeAnswer,
    id: Option<Json>,
)
    ensures
        params_view(Err(message)) == Err::<(Seq<char>, Option<Seq<Seq<char>>>), Seq<char>>(message@),
        chains is None ==> params_view(Ok((address, chains))) == Ok::<
            (Seq<char>, Option<Seq<Seq<char>>>),
            Seq<char>,
        >((address@, None)),
        chains matches Some(list) ==> params_view(Ok((address, chains))) == Ok::<
            (Seq<char>, Option<Seq<Seq<char>>>),
            Seq<char>,
        >((address@, Some(text::texts(list@)))),
        chains matches Some(list) ==> opt_texts(chains) == Some(text::texts(list@)),
        chains is None ==> opt_texts(chains) is None,
        answer matches CodeAnswer::Code(code) ==> answer@ == CodeAnswerView::Code(code@),
        answer matches CodeAnswer::Refused(text) ==> answer@ == CodeAnswerView::Refused(text@),
        answer is Unusable ==> answer@ == CodeAnswerView::Unusable,
        id is None ==> opt_json(id) is None,
        id matches Some(json) ==> opt_json(id) == Some(json.tree()),
{
}

} // verus!

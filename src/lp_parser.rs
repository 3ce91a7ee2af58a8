//! Reading lifepaths and settings from JSON: field extraction, the domain
//! encoders, the lifepath builder and the setting assembler.
use vstd::prelude::*;
use vstd::string::StrSliceExecFns;
use vstd::string::StringExecFns;

use crate::json::{json_get, json_of, parse_json, JsonValue};
use crate::lifepaths::{
    opt_texts, Leads, LeadsView, Lifepath, LifepathLookup, LifepathView, Setting, SettingView, Note, Requirement, Restriction, StatBoost,
    StatBoostType,
};
use crate::text::{split_list, split_text, str_eq, views};

verus! {

/// Why a lifepath or a setting could not be read.
#[derive(Debug)]
pub enum LPPError {
    /// A required field is absent; holds the key.
    KeyNotFound(String),
    /// A field holds the wrong kind of value; holds the kind expected and the key.
    WrongType(String, String),
    /// The input is not JSON, or not shaped as an object where one is required.
    MalformedDocument,
}

/// What an `LPPError` holds.
pub enum ErrorView {
    KeyNotFound(Seq<char>),
    WrongType(Seq<char>, Seq<char>),
    MalformedDocument,
}

impl View for LPPError {
    type V = ErrorView;

    open spec fn view(&self) -> ErrorView {
        match self {
            LPPError::KeyNotFound(k) => ErrorView::KeyNotFound(k@),
            LPPError::WrongType(t, k) => ErrorView::WrongType(t@, k@),
            LPPError::MalformedDocument => ErrorView::MalformedDocument,
        }
    }
}

/// The message of an error.
pub open spec fn error_text(e: ErrorView) -> Seq<char> {
    match e {
        ErrorView::KeyNotFound(k) => "Key not found: "@ + k,
        ErrorView::WrongType(t, k) => "Wrong type, expected "@ + t + " for "@ + k,
        ErrorView::MalformedDocument => "Unknown Error"@,
    }
}

impl LPPError {
    /// The error's message.
    pub fn message(&self) -> (r: String)
        ensures
            r@ == error_text(self@),
    {
        match self {
            LPPError::KeyNotFound(k) => {
                let mut r = String::from_str("Key not found: ");
                r.append(k.as_str());
                r
            },
            LPPError::WrongType(t, k) => {
                let mut r = String::from_str("Wrong type, expected ");
                r.append(t.as_str());
                r.append(" for ");
                r.append(k.as_str());
                assert(r@ =~= error_text(self@));
                r
            },
            LPPError::MalformedDocument => String::from_str("Unknown Error"),
        }
    }
}

/// A result with its error as an `ErrorView`.
pub open spec fn res_view<T>(r: Result<T, LPPError>) -> Result<T, ErrorView> {
    match r {
        Ok(x) => Ok(x),
        Err(e) => Err(e@),
    }
}

/// A text result with its text and error as views.
pub open spec fn str_res_view(r: Result<String, LPPError>) -> Result<Seq<char>, ErrorView> {
    match r {
        Ok(x) => Ok(x@),
        Err(e) => Err(e@),
    }
}

/// A lifepath result as views.
pub open spec fn lp_res_view(r: Result<Lifepath, LPPError>) -> Result<LifepathView, ErrorView> {
    match r {
        Ok(x) => Ok(x@),
        Err(e) => Err(e@),
    }
}

/// The error of a result, if it is one.
pub open spec fn err_of<T>(r: Result<T, ErrorView>) -> Option<ErrorView> {
    match r {
        Ok(_) => None,
        Err(e) => Some(e),
    }
}

/// The first of two optional errors.
pub open spec fn first_err(a: Option<ErrorView>, b: Option<ErrorView>) -> Option<ErrorView> {
    if a is Some {
        a
    } else {
        b
    }
}

/// The member `key` of `map`, or `KeyNotFound(key)`.
pub open spec fn field(map: JsonValue, key: Seq<char>) -> Result<JsonValue, ErrorView> {
    match json_get(map, key) {
        Some(v) => Ok(v),
        None => Err(ErrorView::KeyNotFound(key)),
    }
}

/// The integer member `key` of `map`; null counts as zero.
pub open spec fn field_int(map: JsonValue, key: Seq<char>) -> Result<i64, ErrorView> {
    match json_get(map, key) {
        None => Err(ErrorView::KeyNotFound(key)),
        Some(JsonValue::Null) => Ok(0),
        Some(JsonValue::Int(i)) => Ok(i),
        Some(_) => Err(ErrorView::WrongType("int"@, key)),
    }
}

/// The string member `key` of `map`.
pub open spec fn field_str(map: JsonValue, key: Seq<char>) -> Result<Seq<char>, ErrorView> {
    match json_get(map, key) {
        None => Err(ErrorView::KeyNotFound(key)),
        Some(JsonValue::Str(s)) => Ok(s@),
        Some(_) => Err(ErrorView::WrongType("String"@, key)),
    }
}

/// The boolean member `key` of `map`.
pub open spec fn field_bool(map: JsonValue, key: Seq<char>) -> Result<bool, ErrorView> {
    match json_get(map, key) {
        None => Err(ErrorView::KeyNotFound(key)),
        Some(JsonValue::Bool(b)) => Ok(b),
        Some(_) => Err(ErrorView::WrongType("bool"@, key)),
    }
}

/// A count member `key` of `map`: a non-negative integer, null counting as
/// zero; a negative integer is of the wrong kind.
pub open spec fn field_count(map: JsonValue, key: Seq<char>) -> Result<i64, ErrorView> {
    match field_int(map, key) {
        Ok(i) => if i >= 0 {
            Ok(i)
        } else {
            Err(ErrorView::WrongType("non-negative int"@, key))
        },
        Err(e) => Err(e),
    }
}

fn key_not_found(key: &str) -> (e: LPPError)
    ensures
        e@ == ErrorView::KeyNotFound(key@),
{
    LPPError::KeyNotFound(String::from_str(key))
}

fn wrong_type(kind: &str, key: &str) -> (e: LPPError)
    ensures
        e@ == ErrorView::WrongType(kind@, key@),
{
    LPPError::WrongType(String::from_str(kind), String::from_str(key))
}

/// The member `key` of the object `map`.
pub fn unwrap_or_error<'a>(map: &'a JsonValue, key: &str) -> (r: Result<&'a JsonValue, LPPError>)
    ensures
        r is Ok ==> field(*map, key@) == Ok::<JsonValue, ErrorView>(*r->Ok_0),
        r is Err ==> field(*map, key@) == Err::<JsonValue, ErrorView>(r->Err_0@),
{
    match map.get(key) {
        Some(v) => Ok(v),
        None => Err(key_not_found(key)),
    }
}

/// The integer member `key` of the object `map`; a null member is zero.
pub fn unwrap_int(map: &JsonValue, key: &str) -> (r: Result<i64, LPPError>)
    ensures
        res_view(r) == field_int(*map, key@),
{
    let val = match unwrap_or_error(map, key) {
        Ok(v) => v,
        Err(e) => return Err(e),
    };
    match val {
        JsonValue::Null => Ok(0),
        JsonValue::Int(i) => Ok(*i),
        _ => Err(wrong_type("int", key)),
    }
}

/// The count member `key` of the object `map`: a non-negative integer, a
/// null member being zero.
pub fn unwrap_count(map: &JsonValue, key: &str) -> (r: Result<i64, LPPError>)
    ensures
        res_view(r) == field_count(*map, key@),
{
    match unwrap_int(map, key) {
        Ok(i) => if i >= 0 {
            Ok(i)
        } else {
            Err(wrong_type("non-negative int", key))
        },
        Err(e) => Err(e),
    }
}

/// The string member `key` of the object `map`.
pub fn unwrap_string(map: &JsonValue, key: &str) -> (r: Result<String, LPPError>)
    ensures
        str_res_view(r) == field_str(*map, key@),
{
    let val = match unwrap_or_error(map, key) {
        Ok(v) => v,
        Err(e) => return Err(e),
    };
    match val {
        JsonValue::Str(s) => Ok(s.clone()),
        _ => Err(wrong_type("String", key)),
    }
}

/// The boolean member `key` of the object `map`.
pub fn unwrap_bool(map: &JsonValue, key: &str) -> (r: Result<bool, LPPError>)
    ensures
        res_view(r) == field_bool(*map, key@),
{
    let val = match unwrap_or_error(map, key) {
        Ok(v) => v,
        Err(e) => return Err(e),
    };
    match val {
        JsonValue::Bool(b) => Ok(*b),
        _ => Err(wrong_type("bool", key)),
    }
}

/// The comma-separated string member `key` of `map`, split into its tokens.
pub open spec fn field_list(map: JsonValue, key: Seq<char>) -> Result<Seq<Seq<char>>, ErrorView> {
    match field_str(map, key) {
        Ok(s) => Ok(split_list(s)),
        Err(e) => Err(e),
    }
}

/// The comma-separated string member `key` of the object `map`, split into
/// its trimmed, non-empty tokens.
pub fn split_list_field(map: &JsonValue, key: &str) -> (r: Result<Vec<String>, LPPError>)
    ensures
        r is Ok ==> field_list(*map, key@) == Ok::<Seq<Seq<char>>, ErrorView>(views(r->Ok_0@)),
        r is Err ==> field_list(*map, key@) == Err::<Seq<Seq<char>>, ErrorView>(r->Err_0@),
{
    match unwrap_string(map, key) {
        Ok(s) => Ok(split_text(s.as_str())),
        Err(e) => Err(e),
    }
}

/// The stat boost for a subtract flag and a category: magnitude -1 when
/// subtracting, else +1; an unknown category is the neutral boost.
pub open spec fn boost_of(subtract: bool, stat: Seq<char>) -> StatBoost {
    let m: i8 = if subtract {
        -1i8
    } else {
        1i8
    };
    if stat == "physical"@ {
        StatBoost(m, StatBoostType::Physical)
    } else if stat == "mental"@ {
        StatBoost(m, StatBoostType::Mental)
    } else if stat == "both"@ {
        StatBoost(m, StatBoostType::Both)
    } else if stat == "either"@ {
        StatBoost(m, StatBoostType::Either)
    } else {
        StatBoost(0, StatBoostType::Neutral)
    }
}

/// Encodes a subtract flag and a category as a stat boost.
pub fn encode_stat_boost(subtract: bool, stat: &str) -> (r: StatBoost)
    ensures
        r == boost_of(subtract, stat@),
{
    let m: i8 = if subtract {
        -1
    } else {
        1
    };
    if str_eq(stat, "physical") {
        StatBoost(m, StatBoostType::Physical)
    } else if str_eq(stat, "mental") {
        StatBoost(m, StatBoostType::Mental)
    } else if str_eq(stat, "both") {
        StatBoost(m, StatBoostType::Both)
    } else if str_eq(stat, "either") {
        StatBoost(m, StatBoostType::Either)
    } else {
        StatBoost(0, StatBoostType::Neutral)
    }
}

/// The stat boost of a lifepath's data: `subtractStats`, then `statBoost`.
pub open spec fn stat_boost_field(map: JsonValue) -> Result<StatBoost, ErrorView> {
    match field_bool(map, "subtractStats"@) {
        Err(e) => Err(e),
        Ok(b) => match field_str(map, "statBoost"@) {
            Err(e) => Err(e),
            Ok(s) => Ok(boost_of(b, s)),
        },
    }
}

/// Reads the stat boost of a lifepath's data object.
pub fn get_stat_boost(map: &JsonValue) -> (r: Result<StatBoost, LPPError>)
    ensures
        res_view(r) == stat_boost_field(*map),
{
    let subtract = match unwrap_bool(map, "subtractStats") {
        Ok(b) => b,
        Err(e) => return Err(e),
    };
    let stat = match unwrap_string(map, "statBoost") {
        Ok(s) => s,
        Err(e) => return Err(e),
    };
    Ok(encode_stat_boost(subtract, stat.as_str()))
}

/// The leads for a list of tokens: none when empty, any when the first
/// token is `Any`, else the tokens.
pub open spec fn leads_of(tokens: Seq<Seq<char>>) -> LeadsView {
    if tokens.len() == 0 {
        LeadsView::Nothing
    } else if tokens[0] == "Any"@ {
        LeadsView::Any
    } else {
        LeadsView::Listed(tokens)
    }
}

/// Encodes a list of lead tokens.
pub fn leads_from_tokens(tokens: Vec<String>) -> (r: Leads)
    ensures
        r@ == leads_of(views(tokens@)),
{
    if tokens.len() == 0 {
        Leads::Nothing
    } else if str_eq(tokens[0].as_str(), "Any") {
        Leads::Any
    } else {
        Leads::Listed(tokens)
    }
}

/// Encodes a comma-separated leads field.
pub fn encode_leads(s: &str) -> (r: Leads)
    ensures
        r@ == leads_of(split_list(s@)),
{
    leads_from_tokens(split_text(s))
}

/// An optional annotation: none for empty text, else the one text.
pub open spec fn annotation_of(s: Seq<char>) -> Option<Seq<Seq<char>>> {
    if s.len() == 0 {
        None
    } else {
        Some(seq![s])
    }
}

/// Wraps a requirements text.
pub fn encode_requirements(s: String) -> (r: Option<Vec<Requirement>>)
    ensures
        opt_texts(r) == annotation_of(s@),
{
    if s.as_str().unicode_len() == 0 {
        None
    } else {
        let r = vec![Requirement::Custom(s)];
        assert(opt_texts(Some(r)).unwrap() =~= annotation_of(s@).unwrap());
        Some(r)
    }
}

/// Wraps a restrictions text.
pub fn encode_restrictions(s: String) -> (r: Option<Vec<Restriction>>)
    ensures
        opt_texts(r) == annotation_of(s@),
{
    if s.as_str().unicode_len() == 0 {
        None
    } else {
        let r = vec![Restriction::Custom(s)];
        assert(opt_texts(Some(r)).unwrap() =~= annotation_of(s@).unwrap());
        Some(r)
    }
}

/// Wraps a note text.
pub fn encode_note(s: String) -> (r: Option<Vec<Note>>)
    ensures
        opt_texts(r) == annotation_of(s@),
{
    if s.as_str().unicode_len() == 0 {
        None
    } else {
        let r = vec![Note::Custom(s)];
        assert(opt_texts(Some(r)).unwrap() =~= annotation_of(s@).unwrap());
        Some(r)
    }
}

/// The first field error of a lifepath's data object, in reading order.
pub open spec fn data_error(d: JsonValue) -> Option<ErrorView> {
    first_err(
        err_of(field_count(d, "time"@)),
        first_err(
            err_of(field_count(d, "resources"@)),
            first_err(
                err_of(field_count(d, "skillPoints"@)),
                first_err(
                    err_of(field_count(d, "traitPoints"@)),
                    first_err(
                        err_of(field_count(d, "generalPoints"@)),
                        first_err(
                            err_of(stat_boost_field(d)),
                            first_err(
                                err_of(field_str(d, "leads"@)),
                                first_err(
                                    err_of(field_str(d, "skillList"@)),
                                    first_err(
                                        err_of(field_str(d, "traitList"@)),
                                        first_err(
                                            err_of(field_str(d, "restrictions"@)),
                                            first_err(
                                                err_of(field_str(d, "requirements"@)),
                                                err_of(field_str(d, "note"@)),
                                            ),
                                        ),
                                    ),
                                ),
                            ),
                        ),
                    ),
                ),
            ),
        ),
    )
}

/// The lifepath named `name` whose data object `d` has no field error.
pub open spec fn lifepath_from_data(name: Seq<char>, d: JsonValue) -> LifepathView {
    LifepathView {
        name,
        time: field_count(d, "time"@)->Ok_0,
        resources: field_count(d, "resources"@)->Ok_0,
        stat_boost: stat_boost_field(d)->Ok_0,
        leads: leads_of(split_list(field_str(d, "leads"@)->Ok_0)),
        skill_points: field_count(d, "skillPoints"@)->Ok_0,
        general_points: field_count(d, "generalPoints"@)->Ok_0,
        trait_points: field_count(d, "traitPoints"@)->Ok_0,
        skill_list: split_list(field_str(d, "skillList"@)->Ok_0),
        trait_list: split_list(field_str(d, "traitList"@)->Ok_0),
        requirements: annotation_of(field_str(d, "requirements"@)->Ok_0),
        restrictions: annotation_of(field_str(d, "restrictions"@)->Ok_0),
        note: annotation_of(field_str(d, "note"@)->Ok_0),
    }
}

/// The lifepath that a member object describes, or the first error met:
/// `name`, which must not be empty, then `data`, then the data's fields,
/// whose counts must not be negative.
pub open spec fn lifepath_of(v: JsonValue) -> Result<LifepathView, ErrorView> {
    if !(v is Object) {
        Err(ErrorView::MalformedDocument)
    } else {
        match field_str(v, "name"@) {
            Err(e) => Err(e),
            Ok(name) => if name.len() == 0 {
                Err(ErrorView::WrongType("non-empty String"@, "name"@))
            } else {
                match json_get(v, "data"@) {
                None => Err(ErrorView::KeyNotFound("data"@)),
                Some(d) => if !(d is Object) {
                    Err(ErrorView::WrongType("object"@, "data"@))
                } else {
                    match data_error(d) {
                        Some(e) => Err(e),
                        None => Ok(lifepath_from_data(name, d)),
                    }
                },
            }
            },
        }
    }
}

/// Builds the lifepath that a member object describes.
pub fn read_lifepath(val: &JsonValue) -> (r: Result<Lifepath, LPPError>)
    ensures
        lp_res_view(r) == lifepath_of(*val),
        r is Ok ==> r->Ok_0@.name.len() > 0 && r->Ok_0@.time >= 0 && r->Ok_0@.resources >= 0
            && r->Ok_0@.skill_points >= 0 && r->Ok_0@.general_points >= 0
            && r->Ok_0@.trait_points >= 0,
{
    if !matches!(val, JsonValue::Object(_)) {
        return Err(LPPError::MalformedDocument);
    }
    let name = match unwrap_string(val, "name") {
        Ok(n) => n,
        Err(e) => return Err(e),
    };
    if name.as_str().unicode_len() == 0 {
        return Err(wrong_type("non-empty String", "name"));
    }
    let data = match unwrap_or_error(val, "data") {
        Ok(d) => d,
        Err(e) => return Err(e),
    };
    if !matches!(data, JsonValue::Object(_)) {
        return Err(wrong_type("object", "data"));
    }
    let time = match unwrap_count(data, "time") {
        Ok(x) => x,
        Err(e) => return Err(e),
    };
    let resources = match unwrap_count(data, "resources") {
        Ok(x) => x,
        Err(e) => return Err(e),
    };
    let skill_points = match unwrap_count(data, "skillPoints") {
        Ok(x) => x,
        Err(e) => return Err(e),
    };
    let trait_points = match unwrap_count(data, "traitPoints") {
        Ok(x) => x,
        Err(e) => return Err(e),
    };
    let general_points = match unwrap_count(data, "generalPoints") {
        Ok(x) => x,
        Err(e) => return Err(e),
    };
    let stat_boost = match get_stat_boost(data) {
        Ok(x) => x,
        Err(e) => return Err(e),
    };
    let leads = match split_list_field(data, "leads") {
        Ok(x) => leads_from_tokens(x),
        Err(e) => return Err(e),
    };
    let skill_list = match split_list_field(data, "skillList") {
        Ok(x) => x,
        Err(e) => return Err(e),
    };
    let trait_list = match split_list_field(data, "traitList") {
        Ok(x) => x,
        Err(e) => return Err(e),
    };
    let restrictions = match unwrap_string(data, "restrictions") {
        Ok(x) => encode_restrictions(x),
        Err(e) => return Err(e),
    };
    let requirements = match unwrap_string(data, "requirements") {
        Ok(x) => encode_requirements(x),
        Err(e) => return Err(e),
    };
    let note = match unwrap_string(data, "note") {
        Ok(x) => encode_note(x),
        Err(e) => return Err(e),
    };
    let lp = Lifepath::new(
        name,
        time,
        resources,
        stat_boost,
        leads,
        skill_points,
        general_points,
        trait_points,
        skill_list,
        trait_list,
        requirements,
        restrictions,
        note,
    );
    proof {
        lemma_member_fields(*val);
    }
    Ok(lp)
}

/// A member's rank: its integer `data.order`, or `i64::MAX` where the member,
/// its `data` or its `order` is missing or of another kind.
pub open spec fn order_key(v: JsonValue) -> i64 {
    match json_get(v, "data"@) {
        Some(d) => match json_get(d, "order"@) {
            Some(JsonValue::Int(i)) => i,
            _ => i64::MAX,
        },
        None => i64::MAX,
    }
}

/// Reads a member's rank.
pub fn extract_order(val: &JsonValue) -> (r: i64)
    ensures
        r == order_key(*val),
{
    match val.get("data") {
        Some(d) => match d.get("order") {
            Some(JsonValue::Int(i)) => *i,
            _ => i64::MAX,
        },
        None => i64::MAX,
    }
}

/// `order` with `j` placed after every index whose key is at most `keys[j]`
/// and before the rest, found from the end.
pub open spec fn insert_ranked(order: Seq<usize>, keys: Seq<i64>, j: usize) -> Seq<usize>
    decreases order.len(),
{
    if order.len() == 0 {
        seq![j]
    } else if keys[order.last() as int] <= keys[j as int] {
        order.push(j)
    } else {
        insert_ranked(order.drop_last(), keys, j).push(order.last())
    }
}

/// The indices `0..n` ordered by ascending key, equal keys in index order.
pub open spec fn rank_order(keys: Seq<i64>, n: nat) -> Seq<usize>
    decreases n,
{
    if n == 0 {
        Seq::empty()
    } else {
        insert_ranked(rank_order(keys, (n - 1) as nat), keys, (n - 1) as usize)
    }
}

proof fn lemma_insert_ranked_split(order: Seq<usize>, keys: Seq<i64>, j: usize, pos: int)
    requires
        0 <= pos <= order.len(),
        forall|k: int| 0 <= k < order.len() ==> order[k] < keys.len(),
        j < keys.len(),
        forall|k: int| pos <= k < order.len() ==> keys[order[k] as int] > keys[j as int],
    ensures
        insert_ranked(order, keys, j) == insert_ranked(order.take(pos), keys, j) + order.skip(pos),
    decreases order.len(),
{
    if pos < order.len() {
        lemma_insert_ranked_split(order.drop_last(), keys, j, pos);
        assert(order.drop_last().take(pos) =~= order.take(pos));
        assert(order.drop_last().skip(pos).push(order.last()) =~= order.skip(pos));
        assert(insert_ranked(order, keys, j) =~= insert_ranked(order.take(pos), keys, j) + order.skip(
            pos,
        ));
    } else {
        assert(order.take(pos) =~= order);
        assert(order.skip(pos) =~= Seq::<usize>::empty());
        assert(insert_ranked(order, keys, j) + Seq::<usize>::empty() =~= insert_ranked(order, keys, j));
    }
}

proof fn lemma_insert_ranked_bounded(order: Seq<usize>, keys: Seq<i64>, j: usize, n: usize)
    requires
        forall|k: int| 0 <= k < order.len() ==> order[k] < n,
        j < n,
    ensures
        insert_ranked(order, keys, j).len() == order.len() + 1,
        forall|k: int|
            0 <= k < insert_ranked(order, keys, j).len() ==> insert_ranked(order, keys, j)[k] < n,
    decreases order.len(),
{
    if order.len() > 0 {
        lemma_insert_ranked_bounded(order.drop_last(), keys, j, n);
    }
}

/// The member indices in rank order: ascending rank, ties in member order.
pub fn rank_members(keys: &Vec<i64>) -> (r: Vec<usize>)
    ensures
        r@ == rank_order(keys@, keys@.len()),
        r@.len() == keys@.len(),
        forall|k: usize| k < keys@.len() ==> r@.contains(k),
        forall|t: int| 0 <= t < r@.len() ==> r@[t] < keys@.len(),
        rank_sorted(keys@, r@),
{
    let n = keys.len();
    let r = rank_members_in_order(keys);
    proof {
        lemma_rank_order_stable(keys@, n as nat);
    }
    r
}

fn rank_members_in_order(keys: &Vec<i64>) -> (r: Vec<usize>)
    ensures
        r@ == rank_order(keys@, keys@.len()),
{
    let mut order: Vec<usize> = Vec::new();
    let mut j: usize = 0;
    while j < keys.len()
        invariant
            j <= keys@.len(),
            order@ == rank_order(keys@, j as nat),
            order@.len() == j,
            forall|k: int| 0 <= k < order@.len() ==> order@[k] < j,
        decreases keys@.len() - j,
    {
        let mut pos: usize = order.len();
        while pos > 0 && keys[order[pos - 1]] > keys[j]
            invariant
                pos <= order@.len(),
                j < keys@.len(),
                forall|k: int| 0 <= k < order@.len() ==> order@[k] < j,
                forall|k: int| pos <= k < order@.len() ==> keys@[order@[k] as int] > keys@[j as int],
            decreases pos,
        {
            pos = pos - 1;
        }
        proof {
            lemma_insert_ranked_split(order@, keys@, j, pos as int);
            lemma_insert_ranked_bounded(order@, keys@, j, (j + 1) as usize);
            if pos > 0 {
                assert(order@.take(pos as int).last() == order@[pos - 1]);
                assert(order@.take(pos as int).push(j) == insert_ranked(order@.take(pos as int), keys@, j));
            }
        }
        let ghost before = order@;
        order.insert(pos, j);
        assert(order@ =~= before.take(pos as int).push(j) + before.skip(pos as int));
        j = j + 1;
    }
    order
}

/// Where assembling a setting stands: the names read, the lookup, and the
/// error that stopped it, if one did.
pub struct Assembly {
    pub names: Seq<Seq<char>>,
    pub lookup: Map<(Seq<char>, Seq<char>), LifepathView>,
    pub error: Option<ErrorView>,
}

/// Builds the members in order into the setting named `setting`, each
/// stored in the lookup as it is built; stops at the first member that
/// fails.
pub open spec fn assemble(
    members: Seq<JsonValue>,
    setting: Seq<char>,
    lookup: Map<(Seq<char>, Seq<char>), LifepathView>,
) -> Assembly
    decreases members.len(),
{
    if members.len() == 0 {
        Assembly { names: Seq::empty(), lookup, error: None }
    } else {
        let prev = assemble(members.drop_last(), setting, lookup);
        if prev.error is Some {
            prev
        } else {
            match lifepath_of(members.last()) {
                Err(e) => Assembly { names: prev.names, lookup: prev.lookup, error: Some(e) },
                Ok(lp) => Assembly {
                    names: prev.names.push(lp.name),
                    lookup: prev.lookup.insert((lp.name, setting), lp),
                    error: None,
                },
            }
        }
    }
}

/// The members of a setting object: its `items` array, or none.
pub open spec fn members_of(v: JsonValue) -> Seq<JsonValue> {
    match json_get(v, "items"@) {
        Some(JsonValue::Array(a)) => a@,
        _ => Seq::empty(),
    }
}

/// The members in rank order.
pub open spec fn ranked(members: Seq<JsonValue>) -> Seq<JsonValue> {
    rank_order(members.map_values(|m: JsonValue| order_key(m)), members.len()).map_values(
        |i: usize| members[i as int],
    )
}

/// What reading a setting object gives, and the lookup after it.
pub open spec fn setting_outcome(
    v: JsonValue,
    lookup: Map<(Seq<char>, Seq<char>), LifepathView>,
) -> (Result<SettingView, ErrorView>, Map<(Seq<char>, Seq<char>), LifepathView>) {
    if !(v is Object) {
        (Err(ErrorView::MalformedDocument), lookup)
    } else {
        match json_get(v, "name"@) {
            Some(JsonValue::Str(name)) => {
                let a = assemble(ranked(members_of(v)), name@, lookup);
                match a.error {
                    Some(e) => (Err(e), a.lookup),
                    None => (Ok(SettingView { name: name@, lifepaths: a.names }), a.lookup),
                }
            },
            Some(_) => (Err(ErrorView::WrongType("String"@, "name"@)), lookup),
            None => (Err(ErrorView::KeyNotFound("name"@)), lookup),
        }
    }
}

/// A setting result as views.
pub open spec fn setting_res_view(r: Result<Setting, LPPError>) -> Result<SettingView, ErrorView> {
    match r {
        Ok(x) => Ok(x@),
        Err(e) => Err(e@),
    }
}

/// Reads a setting object: its name, then its members in rank order, each
/// built and stored in `lookup` under the setting's name. The first member
/// that fails stops the reading with its error.
pub fn read_setting_value(lookup: &mut LifepathLookup, val: &JsonValue) -> (r: Result<
    Setting,
    LPPError,
>)
    requires
        old(lookup).wf(),
    ensures
        final(lookup).wf(),
        (setting_res_view(r), final(lookup)@) == setting_outcome(*val, old(lookup)@),
{
    if !matches!(val, JsonValue::Object(_)) {
        return Err(LPPError::MalformedDocument);
    }
    let name = match val.get("name") {
        Some(JsonValue::Str(n)) => n,
        Some(_) => return Err(wrong_type("String", "name")),
        None => return Err(key_not_found("name")),
    };
    let mut setting = Setting::new(name.clone());
    let empty: Vec<JsonValue> = Vec::new();
    let items = match val.get("items") {
        Some(JsonValue::Array(a)) => a,
        _ => &empty,
    };
    let ghost members = items@;
    assert(members == members_of(*val));
    let mut keys: Vec<i64> = Vec::new();
    let mut i: usize = 0;
    while i < items.len()
        invariant
            i <= items@.len(),
            keys@ =~= items@.take(i as int).map_values(|m: JsonValue| order_key(m)),
        decreases items@.len() - i,
    {
        keys.push(extract_order(&items[i]));
        i = i + 1;
    }
    assert(items@.take(i as int) =~= items@);
    let order = rank_members(&keys);
    proof {
        lemma_insert_bounds(keys@, keys@.len());
    }
    let ghost ranked_members = ranked(members);
    assert(ranked_members.len() == order@.len());
    let mut k: usize = 0;
    while k < order.len()
        invariant
            k <= order@.len(),
            order@.len() == items@.len(),
            forall|t: int| 0 <= t < order@.len() ==> order@[t] < items@.len(),
            ranked_members.len() == order@.len(),
            forall|t: int| 0 <= t < order@.len() ==> ranked_members[t] == items@[order@[t] as int],
            lookup.wf(),
            *val is Object,
            json_get(*val, "name"@) == Some(JsonValue::Str(*name)),
            members_of(*val) == items@,
            ranked_members == ranked(items@),
            setting@.name == name@,
            assemble(ranked_members.take(k as int), name@, old(lookup)@).error is None,
            assemble(ranked_members.take(k as int), name@, old(lookup)@).names == setting@.lifepaths,
            assemble(ranked_members.take(k as int), name@, old(lookup)@).lookup == lookup@,
        decreases order@.len() - k,
    {
        assert(ranked_members.take(k + 1).drop_last() =~= ranked_members.take(k as int));
        let member = &items[order[k]];
        match read_lifepath(member) {
            Ok(lp) => {
                let lp_name = lp.name().clone();
                setting.push_lifepath(lp_name);
                lookup.add_lifepaths(lp, setting.name().as_str());
            },
            Err(e) => {
                assert(ranked_members.take(k + 1) =~= ranked_members.take(k as int).push(*member));
                assert(ranked_members =~= ranked_members.take(k + 1) + ranked_members.skip(k + 1));
                let ghost a = assemble(ranked_members.take(k + 1), name@, old(lookup)@);
                proof {
                    lemma_assemble_stops(ranked_members.take(k + 1), ranked_members.skip(k + 1), name@, old(lookup)@);
                }
                assert(assemble(ranked_members, name@, old(lookup)@) == a);
                return Err(e);
            },
        }
        k = k + 1;
    }
    assert(ranked_members.take(k as int) =~= ranked_members);
    Ok(setting)
}

proof fn lemma_insert_bounds(keys: Seq<i64>, n: nat)
    requires
        n <= keys.len(),
        n <= usize::MAX,
    ensures
        rank_order(keys, n).len() == n,
        forall|t: int| 0 <= t < rank_order(keys, n).len() ==> rank_order(keys, n)[t] < n,
    decreases n,
{
    if n > 0 {
        lemma_insert_bounds(keys, (n - 1) as nat);
        lemma_insert_ranked_bounded(rank_order(keys, (n - 1) as nat), keys, (n - 1) as usize, n as usize);
    }
}

proof fn lemma_assemble_stops(
    done: Seq<JsonValue>,
    rest: Seq<JsonValue>,
    setting: Seq<char>,
    lookup: Map<(Seq<char>, Seq<char>), LifepathView>,
)
    requires
        assemble(done, setting, lookup).error is Some,
    ensures
        assemble(done + rest, setting, lookup) == assemble(done, setting, lookup),
    decreases rest.len(),
{
    if rest.len() > 0 {
        lemma_assemble_stops(done, rest.drop_last(), setting, lookup);
        assert((done + rest).drop_last() =~= done + rest.drop_last());
    } else {
        assert(done + rest =~= done);
    }
}

/// What reading one line of setting text gives, and the lookup after it:
/// `MalformedDocument`, the lookup unchanged, where the text is not JSON.
pub open spec fn line_outcome(
    line: Seq<char>,
    lookup: Map<(Seq<char>, Seq<char>), LifepathView>,
) -> (Result<SettingView, ErrorView>, Map<(Seq<char>, Seq<char>), LifepathView>) {
    match json_of(line) {
        Some(v) => setting_outcome(v, lookup),
        None => (Err(ErrorView::MalformedDocument), lookup),
    }
}

/// Reads one setting from a line of JSON text. Text that is not JSON gives
/// `MalformedDocument` and leaves `lookup` as it was; otherwise the outcome
/// is that of `read_setting_value` on the parsed value.
pub fn read_setting(lookup: &mut LifepathLookup, setting_str: &str) -> (r: Result<
    Setting,
    LPPError,
>)
    requires
        old(lookup).wf(),
    ensures
        final(lookup).wf(),
        json_of(setting_str@) is None ==> (r is Err && r->Err_0@ == ErrorView::MalformedDocument
            && final(lookup)@ == old(lookup)@),
        (setting_res_view(r), final(lookup)@) == line_outcome(setting_str@, old(lookup)@),
{
    match parse_json(setting_str) {
        Some(v) => read_setting_value(lookup, &v),
        None => Err(LPPError::MalformedDocument),
    }
}

/// Where reading settings line by line stands: the settings read, the
/// lookup, and the error that stopped it, if one did.
pub struct SettingsRun {
    pub settings: Seq<SettingView>,
    pub lookup: Map<(Seq<char>, Seq<char>), LifepathView>,
    pub error: Option<ErrorView>,
}

/// Reads the lines in order, each into the lookup that the ones before
/// left; stops at the first line that fails, reading no later line.
pub open spec fn settings_outcome(
    lines: Seq<Seq<char>>,
    lookup: Map<(Seq<char>, Seq<char>), LifepathView>,
) -> SettingsRun
    decreases lines.len(),
{
    if lines.len() == 0 {
        SettingsRun { settings: Seq::empty(), lookup, error: None }
    } else {
        let prev = settings_outcome(lines.drop_last(), lookup);
        if prev.error is Some {
            prev
        } else {
            let (r, after) = line_outcome(lines.last(), prev.lookup);
            match r {
                Err(e) => SettingsRun { settings: prev.settings, lookup: after, error: Some(e) },
                Ok(st) => SettingsRun {
                    settings: prev.settings.push(st),
                    lookup: after,
                    error: None,
                },
            }
        }
    }
}

proof fn lemma_settings_outcome_stops(
    done: Seq<Seq<char>>,
    rest: Seq<Seq<char>>,
    lookup: Map<(Seq<char>, Seq<char>), LifepathView>,
)
    requires
        settings_outcome(done, lookup).error is Some,
    ensures
        settings_outcome(done + rest, lookup) == settings_outcome(done, lookup),
    decreases rest.len(),
{
    if rest.len() > 0 {
        lemma_settings_outcome_stops(done, rest.drop_last(), lookup);
        assert((done + rest).drop_last() =~= done + rest.drop_last());
    } else {
        assert(done + rest =~= done);
    }
}

/// Reads one setting from each line, in order, each into the lookup that
/// the lines before left. The first line that fails stops the reading with
/// its error; no later line is read.
pub fn parse_settings(lines: &Vec<String>, lookup: &mut LifepathLookup) -> (r: Result<
    Vec<Setting>,
    LPPError,
>)
    requires
        old(lookup).wf(),
    ensures
        final(lookup).wf(),
        ({
            let run = settings_outcome(views(lines@), old(lookup)@);
            &&& final(lookup)@ == run.lookup
            &&& run.error is Some ==> r is Err && r->Err_0@ == run.error->Some_0
            &&& run.error is None ==> r is Ok && r->Ok_0@.map_values(|st: Setting| st@)
                == run.settings
        }),
{
    let mut settings: Vec<Setting> = Vec::new();
    let mut i: usize = 0;
    assert(views(lines@).take(0) =~= Seq::<Seq<char>>::empty());
    assert(settings@.map_values(|st: Setting| st@) =~= Seq::<SettingView>::empty());
    while i < lines.len()
        invariant
            i <= lines@.len(),
            lookup.wf(),
            settings_outcome(views(lines@).take(i as int), old(lookup)@).error is None,
            settings_outcome(views(lines@).take(i as int), old(lookup)@).lookup == lookup@,
            settings_outcome(views(lines@).take(i as int), old(lookup)@).settings
                == settings@.map_values(|st: Setting| st@),
        decreases lines@.len() - i,
    {
        let ghost ls = views(lines@);
        assert(ls.take(i + 1).drop_last() =~= ls.take(i as int));
        assert(ls.take(i + 1).last() == lines@[i as int]@);
        match read_setting(lookup, lines[i].as_str()) {
            Ok(st) => {
                let ghost prev = settings@;
                settings.push(st);
                assert(settings@.map_values(|x: Setting| x@) =~= prev.map_values(|x: Setting| x@).push(
                    st@,
                ));
            },
            Err(e) => {
                assert(ls =~= ls.take(i + 1) + ls.skip(i + 1));
                proof {
                    lemma_settings_outcome_stops(ls.take(i + 1), ls.skip(i + 1), old(lookup)@);
                }
                return Err(e);
            },
        }
        i = i + 1;
    }
    assert(views(lines@).take(i as int) =~= views(lines@));
    Ok(settings)
}

/// The lifepaths that the members describe, in order, or the first error.
pub open spec fn lifepaths_of(items: Seq<JsonValue>) -> Result<Seq<LifepathView>, ErrorView>
    decreases items.len(),
{
    if items.len() == 0 {
        Ok(Seq::empty())
    } else {
        match lifepaths_of(items.drop_last()) {
            Err(e) => Err(e),
            Ok(prev) => match lifepath_of(items.last()) {
                Err(e) => Err(e),
                Ok(lp) => Ok(prev.push(lp)),
            },
        }
    }
}

/// The lifepaths of a document whose `items` array holds member objects.
pub open spec fn document_lifepaths(v: JsonValue) -> Result<Seq<LifepathView>, ErrorView> {
    if !(v is Object) {
        Err(ErrorView::MalformedDocument)
    } else {
        match json_get(v, "items"@) {
            None => Err(ErrorView::KeyNotFound("items"@)),
            Some(JsonValue::Array(a)) => lifepaths_of(a@),
            Some(_) => Err(ErrorView::WrongType("array"@, "items"@)),
        }
    }
}

/// A list-of-lifepaths result as views.
pub open spec fn lps_res_view(r: Result<Vec<Lifepath>, LPPError>) -> Result<
    Seq<LifepathView>,
    ErrorView,
> {
    match r {
        Ok(v) => Ok(v@.map_values(|l: Lifepath| l@)),
        Err(e) => Err(e@),
    }
}

proof fn lemma_lifepaths_of_stops(done: Seq<JsonValue>, rest: Seq<JsonValue>)
    requires
        lifepaths_of(done) is Err,
    ensures
        lifepaths_of(done + rest) == lifepaths_of(done),
    decreases rest.len(),
{
    if rest.len() > 0 {
        lemma_lifepaths_of_stops(done, rest.drop_last());
        assert((done + rest).drop_last() =~= done + rest.drop_last());
    } else {
        assert(done + rest =~= done);
    }
}

/// Reads the lifepaths of a document `{"items": [...]}`, in order.
pub fn read_lifepaths_value(val: &JsonValue) -> (r: Result<Vec<Lifepath>, LPPError>)
    ensures
        lps_res_view(r) == document_lifepaths(*val),
{
    if !matches!(val, JsonValue::Object(_)) {
        return Err(LPPError::MalformedDocument);
    }
    let items = match unwrap_or_error(val, "items") {
        Ok(JsonValue::Array(a)) => a,
        Ok(_) => return Err(wrong_type("array", "items")),
        Err(e) => return Err(e),
    };
    let mut out: Vec<Lifepath> = Vec::new();
    let mut i: usize = 0;
    assert(items@.take(0) =~= Seq::<JsonValue>::empty());
    assert(out@.map_values(|l: Lifepath| l@) =~= Seq::<LifepathView>::empty());
    while i < items.len()
        invariant
            i <= items@.len(),
            *val is Object,
            json_get(*val, "items"@) == Some(JsonValue::Array(*items)),
            lifepaths_of(items@.take(i as int)) == Ok::<Seq<LifepathView>, ErrorView>(
                out@.map_values(|l: Lifepath| l@),
            ),
        decreases items@.len() - i,
    {
        assert(items@.take(i + 1).drop_last() =~= items@.take(i as int));
        match read_lifepath(&items[i]) {
            Ok(lp) => {
                let ghost prev = out@;
                out.push(lp);
                assert(out@.map_values(|l: Lifepath| l@) =~= prev.map_values(|l: Lifepath| l@).push(
                    lp@,
                ));
            },
            Err(e) => {
                assert(items@ =~= items@.take(i + 1) + items@.skip(i + 1));
                proof {
                    lemma_lifepaths_of_stops(items@.take(i + 1), items@.skip(i + 1));
                }
                return Err(e);
            },
        }
        i = i + 1;
    }
    assert(items@.take(i as int) =~= items@);
    Ok(out)
}

/// Reads the lifepaths of a JSON document `{"items": [...]}`. Text that is
/// not JSON gives `MalformedDocument`; otherwise the outcome is that of
/// `read_lifepaths_value` on the parsed value.
pub fn read_lifepath_list(doc: &str) -> (r: Result<Vec<Lifepath>, LPPError>)
    ensures
        json_of(doc@) is None ==> r is Err && r->Err_0@ == ErrorView::MalformedDocument,
        json_of(doc@) is Some ==> lps_res_view(r) == document_lifepaths(json_of(doc@)->Some_0),
{
    match parse_json(doc) {
        Some(v) => read_lifepaths_value(&v),
        None => Err(LPPError::MalformedDocument),
    }
}

/// A member object that is read without error gives a lifepath with a
/// non-empty name, non-negative numbers, and requirements, restrictions and
/// note that are absent exactly where their source text is empty and hold
/// one text otherwise.
pub proof fn lemma_member_fields(v: JsonValue)
    requires
        lifepath_of(v) is Ok,
    ensures
        ({
            let lp = lifepath_of(v)->Ok_0;
            let d = json_get(v, "data"@).unwrap();
            &&& lp.name.len() > 0
            &&& lp.time >= 0
            &&& lp.resources >= 0
            &&& lp.skill_points >= 0
            &&& lp.general_points >= 0
            &&& lp.trait_points >= 0
            &&& (lp.requirements is None <==> field_str(d, "requirements"@)->Ok_0.len() == 0)
            &&& (lp.restrictions is None <==> field_str(d, "restrictions"@)->Ok_0.len() == 0)
            &&& (lp.note is None <==> field_str(d, "note"@)->Ok_0.len() == 0)
            &&& (lp.requirements is Some ==> lp.requirements->Some_0.len() == 1)
            &&& (lp.restrictions is Some ==> lp.restrictions->Some_0.len() == 1)
            &&& (lp.note is Some ==> lp.note->Some_0.len() == 1)
        }),
{
}

/// Index `a` comes before index `b`: a lower key, or an equal key and a
/// lower index.
pub open spec fn ranks_before(keys: Seq<i64>, a: usize, b: usize) -> bool {
    keys[a as int] < keys[b as int] || (keys[a as int] == keys[b as int] && a < b)
}

/// Each index of `p` comes before every later one.
pub open spec fn rank_sorted(keys: Seq<i64>, p: Seq<usize>) -> bool {
    forall|i: int, k: int| 0 <= i < k < p.len() ==> ranks_before(keys, #[trigger] p[i], #[trigger] p[k])
}

proof fn lemma_insert_ranked_sorted(order: Seq<usize>, keys: Seq<i64>, j: usize)
    requires
        rank_sorted(keys, order),
        forall|k: int| 0 <= k < order.len() ==> order[k] < j,
        j < keys.len(),
    ensures
        rank_sorted(keys, insert_ranked(order, keys, j)),
        insert_ranked(order, keys, j).contains(j),
        forall|x: usize| order.contains(x) ==> insert_ranked(order, keys, j).contains(x),
        forall|k: int|
            0 <= k < insert_ranked(order, keys, j).len() ==> insert_ranked(order, keys, j)[k] == j
                || order.contains(insert_ranked(order, keys, j)[k]),
    decreases order.len(),
{
    let r = insert_ranked(order, keys, j);
    if order.len() == 0 {
        assert(r[0] == j);
    } else if keys[order.last() as int] <= keys[j as int] {
        assert(r[r.len() - 1] == j);
        assert forall|x: usize| order.contains(x) implies r.contains(x) by {
            let t = choose|t: int| 0 <= t < order.len() && order[t] == x;
            assert(r[t] == x);
        }
        assert forall|i: int, k: int| 0 <= i < k < r.len() implies ranks_before(
            keys,
            #[trigger] r[i],
            #[trigger] r[k],
        ) by {
            if k == r.len() - 1 && i < order.len() - 1 {
                assert(ranks_before(keys, order[i], order.last()));
            }
        }
    } else {
        let front = order.drop_last();
        let last = order.last();
        assert(rank_sorted(keys, front)) by {
            assert forall|i: int, k: int| 0 <= i < k < front.len() implies ranks_before(
                keys,
                #[trigger] front[i],
                #[trigger] front[k],
            ) by {
                assert(front[i] == order[i] && front[k] == order[k]);
            }
        }
        lemma_insert_ranked_sorted(front, keys, j);
        let inner = insert_ranked(front, keys, j);
        assert(r == inner.push(last));
        assert forall|x: usize| order.contains(x) implies r.contains(x) by {
            let t = choose|t: int| 0 <= t < order.len() && order[t] == x;
            if t == order.len() - 1 {
                assert(r[r.len() - 1] == x);
            } else {
                assert(front[t] == x);
                assert(front.contains(x));
                let u = choose|u: int| 0 <= u < inner.len() && inner[u] == x;
                assert(r[u] == x);
            }
        }
        assert(inner.contains(j));
        let u = choose|u: int| 0 <= u < inner.len() && inner[u] == j;
        assert(r[u] == j);
        assert forall|k: int| 0 <= k < r.len() implies r[k] == j || order.contains(r[k]) by {
            if k < inner.len() {
                if r[k] != j {
                    assert(front.contains(r[k]));
                    let t = choose|t: int| 0 <= t < front.len() && front[t] == r[k];
                    assert(order[t] == r[k]);
                }
            } else {
                assert(order[order.len() - 1] == r[k]);
            }
        }
        assert forall|i: int, k: int| 0 <= i < k < r.len() implies ranks_before(
            keys,
            #[trigger] r[i],
            #[trigger] r[k],
        ) by {
            if k == r.len() - 1 {
                assert(r[i] == inner[i]);
                if inner[i] != j {
                    let t = choose|t: int| 0 <= t < front.len() && front[t] == inner[i];
                    assert(ranks_before(keys, order[t], order[order.len() - 1]));
                }
            } else {
                assert(r[i] == inner[i] && r[k] == inner[k]);
            }
        }
    }
}

/// The rank order of `n` members lists each index below `n` exactly once,
/// by ascending key, with equal keys in index order: a stable sort.
pub proof fn lemma_rank_order_stable(keys: Seq<i64>, n: nat)
    requires
        n <= keys.len(),
        n <= usize::MAX,
    ensures
        rank_order(keys, n).len() == n,
        forall|k: usize| k < n ==> rank_order(keys, n).contains(k),
        forall|t: int| 0 <= t < n ==> rank_order(keys, n)[t] < n,
        rank_sorted(keys, rank_order(keys, n)),
    decreases n,
{
    lemma_insert_bounds(keys, n);
    if n > 0 {
        let prev = rank_order(keys, (n - 1) as nat);
        lemma_rank_order_stable(keys, (n - 1) as nat);
        lemma_insert_ranked_sorted(prev, keys, (n - 1) as usize);
        assert forall|k: usize| k < n implies rank_order(keys, n).contains(k) by {
            if k < n - 1 {
                assert(prev.contains(k));
            }
        }
    }
}

} // verus!

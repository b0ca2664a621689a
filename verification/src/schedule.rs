//! The day planner: schedule records, input checks, and what listing,
//! creating, updating, deleting and ticking off do to the stored list.
use vstd::prelude::*;
use vstd::string::*;
use crate::order::{
    first_index_where, is_hit, is_stable_sort, key_view, keys_view, lemma_first_index_where,
    lemma_first_index_where_is, lemma_first_index_where_none, placed_before, keys_order,
    sort_by_keys,
};
use crate::text::{chars_of, decimal, lemma_text_order_antisymmetric, text_order, is_blank, is_blank_text, joined, push_decimal, same_text, trim, trimmed};

verus! {

/// One planned item of a day.
#[derive(Debug, Clone, PartialEq, Eq)]
pub struct ScheduleItem {
    pub id: String,
    pub title: String,
    pub date: String,
    pub start_time: String,
    pub end_time: String,
    pub status: String,
    pub note: String,
}

/// What a new schedule item is made from.
#[derive(Debug, Clone)]
pub struct CreateScheduleInput {
    pub title: String,
    pub date: String,
    pub start_time: String,
    pub end_time: String,
    pub note: Option<String>,
}

/// The new contents of an existing schedule item.
#[derive(Debug, Clone)]
pub struct UpdateScheduleInput {
    pub id: String,
    pub title: String,
    pub date: String,
    pub start_time: String,
    pub end_time: String,
    pub status: String,
    pub note: String,
}

/// A schedule item as values.
pub struct ScheduleItemView {
    pub id: Seq<char>,
    pub title: Seq<char>,
    pub date: Seq<char>,
    pub start_time: Seq<char>,
    pub end_time: Seq<char>,
    pub status: Seq<char>,
    pub note: Seq<char>,
}

/// A creation request as values.
pub struct CreateScheduleInputView {
    pub title: Seq<char>,
    pub date: Seq<char>,
    pub start_time: Seq<char>,
    pub end_time: Seq<char>,
    pub note: Option<Seq<char>>,
}

/// An update request as values.
pub struct UpdateScheduleInputView {
    pub id: Seq<char>,
    pub title: Seq<char>,
    pub date: Seq<char>,
    pub start_time: Seq<char>,
    pub end_time: Seq<char>,
    pub status: Seq<char>,
    pub note: Seq<char>,
}

impl View for ScheduleItem {
    type V = ScheduleItemView;

    open spec fn view(&self) -> ScheduleItemView {
        ScheduleItemView {
            id: self.id@,
            title: self.title@,
            date: self.date@,
            start_time: self.start_time@,
            end_time: self.end_time@,
            status: self.status@,
            note: self.note@,
        }
    }
}

impl View for CreateScheduleInput {
    type V = CreateScheduleInputView;

    open spec fn view(&self) -> CreateScheduleInputView {
        CreateScheduleInputView {
            title: self.title@,
            date: self.date@,
            start_time: self.start_time@,
            end_time: self.end_time@,
            note: match self.note {
                Some(n) => Some(n@),
                None => None,
            },
        }
    }
}

impl View for UpdateScheduleInput {
    type V = UpdateScheduleInputView;

    open spec fn view(&self) -> UpdateScheduleInputView {
        UpdateScheduleInputView {
            id: self.id@,
            title: self.title@,
            date: self.date@,
            start_time: self.start_time@,
            end_time: self.end_time@,
            status: self.status@,
            note: self.note@,
        }
    }
}

/// The views of a list of schedule items.
pub open spec fn schedule_views(s: Seq<ScheduleItem>) -> Seq<ScheduleItemView> {
    Seq::new(s.len(), |i: int| s[i]@)
}

// ---------------------------------------------------------------- checks

/// The message for a required field left blank.
pub open spec fn required_message(field: Seq<char>) -> Seq<char> {
    field + "不能为空"@
}

/// The message for an id that no schedule item has.
pub open spec fn missing_schedule_message(id: Seq<char>) -> Seq<char> {
    "未找到日程："@ + id
}

/// A required field must not be blank; the error names the field.
pub fn validate_required(value: &str, field: &str) -> (r: Result<(), String>)
    ensures
        r is Err <==> is_blank_text(value@),
        r matches Err(e) ==> e@ == required_message(field@),
{
    if is_blank(value) {
        Err(joined(field, "不能为空"))
    } else {
        Ok(())
    }
}

/// A stored status is "done" or "todo".
pub open spec fn normalized_status(s: Seq<char>) -> Seq<char> {
    if s == "done"@ {
        "done"@
    } else {
        "todo"@
    }
}

/// Any status other than "done" is stored as "todo".
pub fn normalize_status(status: &str) -> (r: String)
    ensures
        r@ == normalized_status(status@),
{
    if same_text(status, "done") {
        "done".to_owned()
    } else {
        "todo".to_owned()
    }
}

/// The first failing check of a creation request, if any.
pub open spec fn create_input_error(input: CreateScheduleInputView) -> Option<Seq<char>> {
    if is_blank_text(input.title) {
        Some(required_message("标题"@))
    } else if is_blank_text(input.date) {
        Some(required_message("日期"@))
    } else {
        None
    }
}

/// Checks a creation request: title, then date, must not be blank.
pub fn check_create_input(input: &CreateScheduleInput) -> (r: Result<(), String>)
    ensures
        match create_input_error(input@) {
            Some(msg) => r matches Err(e) && e@ == msg,
            None => r is Ok,
        },
{
    validate_required(input.title.as_str(), "标题")?;
    validate_required(input.date.as_str(), "日期")?;
    Ok(())
}

/// The first failing check of an update request, if any.
pub open spec fn update_input_error(input: UpdateScheduleInputView) -> Option<Seq<char>> {
    if is_blank_text(input.id) {
        Some(required_message("ID"@))
    } else if is_blank_text(input.title) {
        Some(required_message("标题"@))
    } else if is_blank_text(input.date) {
        Some(required_message("日期"@))
    } else {
        None
    }
}

/// Checks an update request: id, title, then date, must not be blank.
pub fn check_update_input(input: &UpdateScheduleInput) -> (r: Result<(), String>)
    ensures
        match update_input_error(input@) {
            Some(msg) => r matches Err(e) && e@ == msg,
            None => r is Ok,
        },
{
    validate_required(input.id.as_str(), "ID")?;
    validate_required(input.title.as_str(), "标题")?;
    validate_required(input.date.as_str(), "日期")?;
    Ok(())
}

/// The first failing check of a request naming an item by id, if any.
pub open spec fn id_error(id: Seq<char>) -> Option<Seq<char>> {
    if is_blank_text(id) {
        Some(required_message("ID"@))
    } else {
        None
    }
}

// ---------------------------------------------------------------- ids

#[verifier::external_type_specification]
#[verifier::external_body]
pub struct ExSystemTime(std::time::SystemTime);

/// `SystemTime::now`: the current time; nothing is known of it.
#[verifier::external_body]
fn system_time_now() -> std::time::SystemTime {
    std::time::SystemTime::now()
}

/// `SystemTime::duration_since(UNIX_EPOCH)` in whole milliseconds; `None`
/// for a time before the epoch. It depends on the clock, so nothing is
/// stated of the value.
#[verifier::external_body]
fn millis_since_unix_epoch(t: std::time::SystemTime) -> Option<u128> {
    match t.duration_since(std::time::UNIX_EPOCH) {
        Ok(d) => Some(d.as_millis()),
        Err(_) => None,
    }
}

/// The id of an item created `millis` milliseconds after the Unix epoch.
pub open spec fn schedule_id(millis: nat) -> Seq<char> {
    "schedule-"@ + decimal(millis)
}

/// An id as `generate_id` makes them.
pub open spec fn is_schedule_id(id: Seq<char>) -> bool {
    exists|m: nat| m <= u128::MAX && id == #[trigger] schedule_id(m)
}

/// The id for a creation time: "schedule-" and the milliseconds in decimal.
pub fn schedule_id_from_millis(millis: u128) -> (r: String)
    ensures
        r@ == schedule_id(millis as nat),
{
    let mut id = "schedule-".to_owned();
    push_decimal(&mut id, millis);
    id
}

/// The id for a clock reading in milliseconds since the Unix epoch; a
/// clock before the epoch counts as 0.
pub fn schedule_id_from_reading(reading: Option<u128>) -> (r: String)
    ensures
        r@ == schedule_id(
            match reading {
                Some(m) => m as nat,
                None => 0,
            },
        ),
{
    let millis = match reading {
        Some(m) => m,
        None => 0,
    };
    schedule_id_from_millis(millis)
}

/// A fresh id from the clock.
pub fn generate_id() -> (r: String)
    ensures
        is_schedule_id(r@),
{
    let reading = millis_since_unix_epoch(system_time_now());
    let r = schedule_id_from_reading(reading);
    assert(r@ == schedule_id(
        match reading {
            Some(m) => m as nat,
            None => 0,
        },
    ));
    r
}

// ---------------------------------------------------------------- lookup

/// The position of the first item with this id.
pub open spec fn schedule_with_id(s: Seq<ScheduleItemView>, id: Seq<char>) -> Option<int> {
    first_index_where(s, |v: ScheduleItemView| v.id == id)
}

fn find_schedule(schedules: &Vec<ScheduleItem>, id: &str) -> (r: Option<usize>)
    ensures
        match r {
            Some(k) => k < schedules.len() && schedule_with_id(schedule_views(schedules@), id@) == Some(
                k as int,
            ),
            None => schedule_with_id(schedule_views(schedules@), id@) is None,
        },
{
    let ghost sv = schedule_views(schedules@);
    let ghost p = |v: ScheduleItemView| v.id == id@;
    let mut i: usize = 0;
    while i < schedules.len()
        invariant
            sv == schedule_views(schedules@),
            p == (|v: ScheduleItemView| v.id == id@),
            i <= schedules.len(),
            forall|j: int| 0 <= j < i ==> !p(#[trigger] sv[j]),
        decreases schedules.len() - i,
    {
        if same_text(schedules[i].id.as_str(), id) {
            proof {
                lemma_first_index_where_is(sv, p, i as int);
            }
            return Some(i);
        }
        i += 1;
    }
    proof {
        lemma_first_index_where_none(sv, p);
    }
    None
}

fn copy_item(item: &ScheduleItem) -> (r: ScheduleItem)
    ensures
        r@ == item@,
{
    ScheduleItem {
        id: item.id.clone(),
        title: item.title.clone(),
        date: item.date.clone(),
        start_time: item.start_time.clone(),
        end_time: item.end_time.clone(),
        status: item.status.clone(),
        note: item.note.clone(),
    }
}

// ---------------------------------------------------------------- list

/// The items on `date`, in stored order; all of them when no date is given.
pub open spec fn on_date(s: Seq<ScheduleItem>, date: Option<Seq<char>>) -> Seq<ScheduleItem>
    decreases s.len(),
{
    if s.len() == 0 {
        s
    } else {
        let r = on_date(s.drop_last(), date);
        if date is None || s.last().date@ == date->0 {
            r.push(s.last())
        } else {
            r
        }
    }
}

/// Items are listed by date, then start time, then title.
pub open spec fn schedule_keys(s: Seq<ScheduleItem>) -> Seq<Seq<Seq<char>>> {
    Seq::new(s.len(), |i: int| seq![s[i].date@, s[i].start_time@, s[i].title@])
}

/// The optional date as characters.
pub open spec fn date_view(date: Option<String>) -> Option<Seq<char>> {
    match date {
        Some(d) => Some(d@),
        None => None,
    }
}

/// The schedule of a day (or of all days): the items on that date, sorted
/// by date, start time and title, items that tie keeping their stored order.
pub fn list_schedules(schedules: Vec<ScheduleItem>, date: Option<String>) -> (r: Vec<ScheduleItem>)
    ensures
        exists|perm: Seq<int>|
            #[trigger] is_stable_sort(
                on_date(schedules@, date_view(date)),
                schedule_keys(on_date(schedules@, date_view(date))),
                r@,
                perm,
            ),
{
    let ghost all = schedules@;
    let ghost dv = date_view(date);
    let n = schedules.len();
    let mut rest = schedules;
    let mut kept: Vec<ScheduleItem> = Vec::new();
    let mut keys: Vec<Vec<Vec<char>>> = Vec::new();
    let mut i: usize = 0;
    assert(all.take(0) =~= Seq::<ScheduleItem>::empty());
    while rest.len() > 0
        invariant
            all.len() == n,
            dv == date_view(date),
            i <= n,
            rest.len() == n - i,
            forall|j: int| 0 <= j < rest.len() ==> #[trigger] rest@[j] == all[i + j],
            kept@ == on_date(all.take(i as int), dv),
            keys.len() == kept.len(),
            forall|j: int|
                0 <= j < keys.len() ==> #[trigger] key_view(keys@[j]) == schedule_keys(kept@)[j],
        decreases rest.len(),
    {
        let item = rest.remove(0);
        assert(item == all[i as int]);
        assert(all.take(i + 1).drop_last() =~= all.take(i as int));
        assert(all.take(i + 1).last() == all[i as int]);
        let keep = match &date {
            Some(d) => same_text(item.date.as_str(), d.as_str()),
            None => true,
        };
        if keep {
            let key = vec![
                chars_of(item.date.as_str()),
                chars_of(item.start_time.as_str()),
                chars_of(item.title.as_str()),
            ];
            assert(key_view(key) =~= seq![item.date@, item.start_time@, item.title@]);
            keys.push(key);
            kept.push(item);
        }
        i += 1;
    }
    assert(all.take(n as int) =~= all);
    assert(keys_view(keys@) =~= schedule_keys(kept@));
    sort_by_keys(kept, keys)
}

/// Every listed item is on the requested date.
pub proof fn lemma_on_date_only_that_date(s: Seq<ScheduleItem>, date: Seq<char>)
    ensures
        forall|k: int|
            0 <= k < on_date(s, Some(date)).len() ==> (#[trigger] on_date(s, Some(date))[k]).date@
                == date,
    decreases s.len(),
{
    if s.len() > 0 {
        lemma_on_date_only_that_date(s.drop_last(), date);
        let r = on_date(s.drop_last(), Some(date));
        assert forall|k: int| 0 <= k < on_date(s, Some(date)).len() implies (#[trigger] on_date(
            s,
            Some(date),
        )[k]).date@ == date by {
            if k < r.len() {
                assert(on_date(s, Some(date))[k] == r[k]);
            }
        }
    }
}

// ---------------------------------------------------------------- create

/// The item made from a creation request under `id`.
pub open spec fn created_item(input: CreateScheduleInputView, id: Seq<char>) -> ScheduleItemView {
    ScheduleItemView {
        id,
        title: trimmed(input.title),
        date: input.date,
        start_time: input.start_time,
        end_time: input.end_time,
        status: "todo"@,
        note: match input.note {
            Some(n) => n,
            None => Seq::empty(),
        },
    }
}

/// Adds a new item to the list: the trimmed title, status "todo", an id
/// from the clock, and an empty note when none is given.
pub fn create_schedule(schedules: &mut Vec<ScheduleItem>, input: CreateScheduleInput) -> (r: Result<
    ScheduleItem,
    String,
>)
    ensures
        match create_input_error(input@) {
            Some(msg) => r matches Err(e) && e@ == msg && final(schedules)@ == old(schedules)@,
            None => r matches Ok(item) && item@ == created_item(input@, item.id@) && is_schedule_id(
                item.id@,
            ) && schedule_views(final(schedules)@) == schedule_views(old(schedules)@).push(item@),
        },
        r matches Ok(item) ==> {
            &&& item@.title == trimmed(input@.title)
            &&& item@.date == input@.date
            &&& item@.start_time == input@.start_time
            &&& item@.end_time == input@.end_time
            &&& item@.status == "todo"@
            &&& (input@.note matches Some(n) ==> item@.note == n)
            &&& (input@.note is None ==> item@.note.len() == 0)
        },
{
    check_create_input(&input)?;
    let ghost iv = input@;
    let id = generate_id();
    let title = trim(input.title.as_str());
    let note = match input.note {
        Some(n) => n,
        None => String::new(),
    };
    let item = ScheduleItem {
        id,
        title,
        date: input.date,
        start_time: input.start_time,
        end_time: input.end_time,
        status: "todo".to_owned(),
        note,
    };
    let ghost before = schedules@;
    let stored = copy_item(&item);
    schedules.push(stored);
    assert(schedule_views(schedules@) =~= schedule_views(before).push(item@));
    Ok(item)
}

// ---------------------------------------------------------------- update

/// An item after an update request: the id stays, the title is trimmed
/// and the status normalized.
pub open spec fn updated_item(old: ScheduleItemView, input: UpdateScheduleInputView) -> ScheduleItemView {
    ScheduleItemView {
        id: old.id,
        title: trimmed(input.title),
        date: input.date,
        start_time: input.start_time,
        end_time: input.end_time,
        status: normalized_status(input.status),
        note: input.note,
    }
}

/// Replaces the contents of the first item with the request's id.
pub fn update_schedule(schedules: &mut Vec<ScheduleItem>, input: UpdateScheduleInput) -> (r: Result<
    ScheduleItem,
    String,
>)
    ensures
        match update_input_error(input@) {
            Some(msg) => r matches Err(e) && e@ == msg && final(schedules)@ == old(schedules)@,
            None => match schedule_with_id(schedule_views(old(schedules)@), input@.id) {
                None => r matches Err(e) && e@ == missing_schedule_message(input@.id)
                    && final(schedules)@ == old(schedules)@,
                Some(k) => r matches Ok(item) && item@ == updated_item(
                    schedule_views(old(schedules)@)[k],
                    input@,
                ) && schedule_views(final(schedules)@) == schedule_views(old(schedules)@).update(
                    k,
                    item@,
                ),
            },
        },
        r matches Ok(item) ==> {
            &&& item@.id == input@.id
            &&& item@.title == trimmed(input@.title)
            &&& item@.date == input@.date
            &&& item@.start_time == input@.start_time
            &&& item@.end_time == input@.end_time
            &&& item@.note == input@.note
            &&& (input@.status == "done"@ ==> item@.status == "done"@)
            &&& (input@.status != "done"@ ==> item@.status == "todo"@)
        },
{
    check_update_input(&input)?;
    let found = find_schedule(schedules, input.id.as_str());
    let k = match found {
        Some(k) => k,
        None => {
            return Err(joined("未找到日程：", input.id.as_str()));
        },
    };
    let ghost before = schedules@;
    proof {
        lemma_first_index_where(schedule_views(before), |v: ScheduleItemView| v.id == input@.id);
    }
    let item = ScheduleItem {
        id: schedules[k].id.clone(),
        title: trim(input.title.as_str()),
        date: input.date,
        start_time: input.start_time,
        end_time: input.end_time,
        status: normalize_status(input.status.as_str()),
        note: input.note,
    };
    let stored = copy_item(&item);
    schedules[k] = stored;
    assert(schedule_views(schedules@) =~= schedule_views(before).update(k as int, item@));
    Ok(item)
}

// ---------------------------------------------------------------- delete

/// The list without the items that have this id.
pub open spec fn without_id(s: Seq<ScheduleItemView>, id: Seq<char>) -> Seq<ScheduleItemView>
    decreases s.len(),
{
    if s.len() == 0 {
        s
    } else {
        let r = without_id(s.drop_last(), id);
        if s.last().id == id {
            r
        } else {
            r.push(s.last())
        }
    }
}

/// Keeps the items whose id is not `id`.
pub open spec fn id_other_than(id: Seq<char>) -> spec_fn(ScheduleItemView) -> bool {
    |v: ScheduleItemView| v.id != id
}

/// Deleting by id keeps every other item, unchanged and in order, and
/// nothing else: it is the filter of the items whose id differs.
pub proof fn lemma_without_id_is_filter(s: Seq<ScheduleItemView>, id: Seq<char>)
    ensures
        without_id(s, id) == s.filter(id_other_than(id)),
    decreases s.len(),
{
    if s.len() > 0 {
        lemma_without_id_is_filter(s.drop_last(), id);
        let p = id_other_than(id);
        reveal(Seq::filter);
        assert(p(s.last()) == (s.last().id != id));
        assert(s.filter(p) == if p(s.last()) {
            s.drop_last().filter(p).push(s.last())
        } else {
            s.drop_last().filter(p)
        });
    }
}

/// Removes every item with this id; an error when none has it.
pub fn delete_schedule(schedules: &mut Vec<ScheduleItem>, id: &str) -> (r: Result<(), String>)
    ensures
        match id_error(id@) {
            Some(msg) => r matches Err(e) && e@ == msg && final(schedules)@ == old(schedules)@,
            None => match schedule_with_id(schedule_views(old(schedules)@), id@) {
                None => r matches Err(e) && e@ == missing_schedule_message(id@) && final(schedules)@
                    == old(schedules)@,
                Some(_) => r is Ok && schedule_views(final(schedules)@) == without_id(
                    schedule_views(old(schedules)@),
                    id@,
                ),
            },
        },
        r is Ok ==> schedule_views(final(schedules)@) == schedule_views(old(schedules)@).filter(
            id_other_than(id@),
        ),
{
    validate_required(id, "ID")?;
    if find_schedule(schedules, id).is_none() {
        return Err(joined("未找到日程：", id));
    }
    let ghost all = schedule_views(schedules@);
    let n = schedules.len();
    let mut rest: Vec<ScheduleItem> = Vec::new();
    std::mem::swap(&mut rest, schedules);
    let mut out: Vec<ScheduleItem> = Vec::new();
    let mut i: usize = 0;
    assert(all.take(0) =~= Seq::<ScheduleItemView>::empty());
    while rest.len() > 0
        invariant
            all.len() == n,
            i <= n,
            rest.len() == n - i,
            forall|j: int| 0 <= j < rest.len() ==> #[trigger] rest@[j]@ == all[i + j],
            schedule_views(out@) == without_id(all.take(i as int), id@),
        decreases rest.len(),
    {
        let item = rest.remove(0);
        assert(item@ == all[i as int]);
        assert(all.take(i + 1).drop_last() =~= all.take(i as int));
        assert(all.take(i + 1).last() == all[i as int]);
        let ghost before = out@;
        if !same_text(item.id.as_str(), id) {
            out.push(item);
            assert(schedule_views(out@) =~= schedule_views(before).push(all[i as int]));
        }
        i += 1;
    }
    assert(all.take(n as int) =~= all);
    proof {
        lemma_without_id_is_filter(all, id@);
    }
    *schedules = out;
    Ok(())
}

/// After deleting an id no item has it.
pub proof fn lemma_without_id_has_no_such_item(s: Seq<ScheduleItemView>, id: Seq<char>)
    ensures
        forall|k: int| 0 <= k < without_id(s, id).len() ==> (#[trigger] without_id(s, id)[k]).id != id,
    decreases s.len(),
{
    if s.len() > 0 {
        lemma_without_id_has_no_such_item(s.drop_last(), id);
        let r = without_id(s.drop_last(), id);
        assert forall|k: int| 0 <= k < without_id(s, id).len() implies (#[trigger] without_id(
            s,
            id,
        )[k]).id != id by {
            if k < r.len() {
                assert(without_id(s, id)[k] == r[k]);
            }
        }
    }
}

// ---------------------------------------------------------------- toggle

/// "done" becomes "todo"; any other status becomes "done".
pub open spec fn toggled_status(s: Seq<char>) -> Seq<char> {
    if s == "done"@ {
        "todo"@
    } else {
        "done"@
    }
}

/// An item with its status toggled.
pub open spec fn toggled_item(v: ScheduleItemView) -> ScheduleItemView {
    ScheduleItemView { status: toggled_status(v.status), ..v }
}

/// Ticks the first item with this id done, or back to "todo" when it was done.
pub fn toggle_schedule_done(schedules: &mut Vec<ScheduleItem>, id: &str) -> (r: Result<ScheduleItem, String>)
    ensures
        match id_error(id@) {
            Some(msg) => r matches Err(e) && e@ == msg && final(schedules)@ == old(schedules)@,
            None => match schedule_with_id(schedule_views(old(schedules)@), id@) {
                None => r matches Err(e) && e@ == missing_schedule_message(id@) && final(schedules)@
                    == old(schedules)@,
                Some(k) => r matches Ok(item) && item@ == toggled_item(
                    schedule_views(old(schedules)@)[k],
                ) && schedule_views(final(schedules)@) == schedule_views(old(schedules)@).update(
                    k,
                    item@,
                ),
            },
        },
        r matches Ok(item) ==> exists|k: int|
            #![trigger schedule_views(old(schedules)@)[k]]
            {
                let before = schedule_views(old(schedules)@)[k];
                &&& 0 <= k < old(schedules)@.len()
                &&& before.id == id@
                &&& item@.id == before.id
                &&& item@.title == before.title
                &&& item@.date == before.date
                &&& item@.start_time == before.start_time
                &&& item@.end_time == before.end_time
                &&& item@.note == before.note
                &&& (before.status == "done"@ ==> item@.status == "todo"@)
                &&& (before.status != "done"@ ==> item@.status == "done"@)
                &&& schedule_views(final(schedules)@) == schedule_views(old(schedules)@).update(
                    k,
                    item@,
                )
            },
{
    validate_required(id, "ID")?;
    let k = match find_schedule(schedules, id) {
        Some(k) => k,
        None => {
            return Err(joined("未找到日程：", id));
        },
    };
    let ghost before = schedules@;
    proof {
        lemma_first_index_where(schedule_views(before), |v: ScheduleItemView| v.id == id@);
    }
    let current = &schedules[k];
    let status = if same_text(current.status.as_str(), "done") {
        "todo".to_owned()
    } else {
        "done".to_owned()
    };
    let item = ScheduleItem {
        id: current.id.clone(),
        title: current.title.clone(),
        date: current.date.clone(),
        start_time: current.start_time.clone(),
        end_time: current.end_time.clone(),
        status,
        note: current.note.clone(),
    };
    let stored = copy_item(&item);
    schedules[k] = stored;
    assert(schedule_views(schedules@) =~= schedule_views(before).update(k as int, item@));
    assert(schedule_views(before)[k as int].id == id@);
    Ok(item)
}

// ---------------------------------------------------------------- laws

/// An item just appended to the stored list (as `create_schedule` does) is
/// shown when listing its own date or all dates.
pub proof fn lemma_created_item_is_listed(
    s: Seq<ScheduleItem>,
    date: Option<Seq<char>>,
    out: Seq<ScheduleItem>,
    perm: Seq<int>,
)
    requires
        s.len() > 0,
        date is None || date == Some(s.last().date@),
        is_stable_sort(on_date(s, date), schedule_keys(on_date(s, date)), out, perm),
    ensures
        exists|k: int| 0 <= k < out.len() && out[k] == s.last(),
{
    let f = on_date(s, date);
    assert(f == on_date(s.drop_last(), date).push(s.last()));
    let j = f.len() - 1;
    assert(is_hit(perm, j));
    let k = choose|k: int| 0 <= k < perm.len() && perm[k] == j;
    assert(out[k] == f[j]);
}

/// A created item carries the request: the trimmed title, the date, the
/// times and the note as given (empty only when none is given), status "todo".
pub proof fn lemma_created_item_carries_request(input: CreateScheduleInputView, id: Seq<char>)
    ensures
        ({
            let c = created_item(input, id);
            &&& c.id == id
            &&& c.title == trimmed(input.title)
            &&& c.date == input.date
            &&& c.start_time == input.start_time
            &&& c.end_time == input.end_time
            &&& c.status == "todo"@
            &&& (input.note matches Some(n) ==> c.note == n)
            &&& (input.note is None ==> c.note.len() == 0)
        }),
{
}

/// An updated item keeps its id and takes everything else from the
/// request: the trimmed title, date, times and note as given, and status
/// "done" exactly when the request says "done", else "todo".
pub proof fn lemma_update_carries_request(before: ScheduleItemView, input: UpdateScheduleInputView)
    ensures
        ({
            let u = updated_item(before, input);
            &&& u.id == before.id
            &&& u.title == trimmed(input.title)
            &&& u.date == input.date
            &&& u.start_time == input.start_time
            &&& u.end_time == input.end_time
            &&& u.note == input.note
            &&& (input.status == "done"@ ==> u.status == "done"@)
            &&& (input.status != "done"@ ==> u.status == "todo"@)
        }),
{
}

/// Ticking an item changes its status only: "done" becomes "todo", any
/// other status becomes "done".
pub proof fn lemma_toggle_changes_only_status(before: ScheduleItemView)
    ensures
        ({
            let t = toggled_item(before);
            &&& t.id == before.id
            &&& t.title == before.title
            &&& t.date == before.date
            &&& t.start_time == before.start_time
            &&& t.end_time == before.end_time
            &&& t.note == before.note
            &&& (before.status == "done"@ ==> t.status == "todo"@)
            &&& (before.status != "done"@ ==> t.status == "done"@)
        }),
{
}

/// A listing is ordered by date, then start time, then title, each in
/// code-point order.
pub proof fn lemma_listed_schedules_ordered(
    s: Seq<ScheduleItem>,
    out: Seq<ScheduleItem>,
    perm: Seq<int>,
    k1: int,
    k2: int,
)
    requires
        is_stable_sort(s, schedule_keys(s), out, perm),
        0 <= k1 < k2 < out.len(),
    ensures
        ({
            let a = out[k1];
            let b = out[k2];
            ||| text_order(a.date@, b.date@) < 0
            ||| a.date@ == b.date@ && text_order(a.start_time@, b.start_time@) < 0
            ||| a.date@ == b.date@ && a.start_time@ == b.start_time@ && text_order(
                a.title@,
                b.title@,
            ) <= 0
        }),
{
    let keys = schedule_keys(s);
    let a = out[k1];
    let b = out[k2];
    assert(placed_before(keys[perm[k1]], perm[k1], keys[perm[k2]], perm[k2]));
    let ka = seq![a.date@, a.start_time@, a.title@];
    let kb = seq![b.date@, b.start_time@, b.title@];
    assert(keys[perm[k1]] == ka);
    assert(keys[perm[k2]] == kb);
    lemma_text_order_antisymmetric(a.date@, b.date@);
    lemma_text_order_antisymmetric(a.start_time@, b.start_time@);
    lemma_text_order_antisymmetric(a.title@, b.title@);
    assert(ka.drop_first() =~= seq![a.start_time@, a.title@]);
    assert(kb.drop_first() =~= seq![b.start_time@, b.title@]);
    assert(ka.drop_first().drop_first() =~= seq![a.title@]);
    assert(kb.drop_first().drop_first() =~= seq![b.title@]);
    assert(ka.drop_first().drop_first().drop_first() =~= Seq::<Seq<char>>::empty());
    assert(kb.drop_first().drop_first().drop_first() =~= Seq::<Seq<char>>::empty());
    reveal_with_fuel(keys_order, 4);
}

/// Normalizing a stored status changes nothing.
pub proof fn lemma_normalize_status_idempotent(s: Seq<char>)
    ensures
        normalized_status(normalized_status(s)) == normalized_status(s),
{
    reveal_strlit("done");
    reveal_strlit("todo");
    assert("todo"@ != "done"@) by {
        assert("todo"@[0] != "done"@[0]);
    }
}

/// Ticking the same item twice gives the list back when its status was
/// "todo" or "done".
pub proof fn lemma_toggle_twice_restores(s: Seq<ScheduleItemView>, id: Seq<char>, k: int)
    requires
        schedule_with_id(s, id) == Some(k),
        s[k].status == "todo"@ || s[k].status == "done"@,
    ensures
        ({
            let t = s.update(k, toggled_item(s[k]));
            &&& schedule_with_id(t, id) == Some(k)
            &&& t.update(k, toggled_item(t[k])) == s
        }),
{
    reveal_strlit("done");
    reveal_strlit("todo");
    assert("todo"@ != "done"@) by {
        assert("todo"@[0] != "done"@[0]);
    }
    let p = |v: ScheduleItemView| v.id == id;
    lemma_first_index_where(s, p);
    let t = s.update(k, toggled_item(s[k]));
    assert forall|j: int| 0 <= j < k implies !p(#[trigger] t[j]) by {
        assert(t[j] == s[j]);
    }
    lemma_first_index_where_is(t, p, k);
    assert(t.update(k, toggled_item(t[k])) =~= s);
}

/// Sending the same update twice leaves the list as one update does.
pub proof fn lemma_update_idempotent(s: Seq<ScheduleItemView>, input: UpdateScheduleInputView, k: int)
    requires
        schedule_with_id(s, input.id) == Some(k),
    ensures
        ({
            let t = s.update(k, updated_item(s[k], input));
            &&& schedule_with_id(t, input.id) == Some(k)
            &&& t.update(k, updated_item(t[k], input)) == t
        }),
{
    let p = |v: ScheduleItemView| v.id == input.id;
    lemma_first_index_where(s, p);
    let t = s.update(k, updated_item(s[k], input));
    assert forall|j: int| 0 <= j < k implies !p(#[trigger] t[j]) by {
        assert(t[j] == s[j]);
    }
    lemma_first_index_where_is(t, p, k);
    assert(t.update(k, updated_item(t[k], input)) =~= t);
}

} // verus!

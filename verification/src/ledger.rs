//! The weekly aggregate a business keeps per ISO week.
//!
//! One record holds the pooled skim, the count of distinct phones seen that
//! week, the discount already dispensed, and a per-phone, per-day log of the
//! final amounts charged.  The per-phone map is an association list keyed by
//! the phone's digits, each entry holding an association list keyed by the
//! day's `DD-Mon-YYYY` text; both lists keep first-insertion order, so a
//! stored record re-serializes byte for byte.

use vstd::prelude::*;
use crate::num::{MONEY_CAP, COUNT_CAP};
use crate::text::eq_bytes;

verus! {

/// One day's comma-joined final-amount texts.
pub struct DayLog {
    pub day: Vec<u8>,
    pub amounts: Vec<u8>,
}

/// One phone's days for the week.
pub struct CustomerLog {
    pub phone: Vec<u8>,
    pub days: Vec<DayLog>,
}

/// The weekly aggregate of a business.
pub struct CustomerDiscountDetails {
    pub total_pooled_amount: i64,
    pub total_eligible_customers: u64,
    pub total_discount_given: i64,
    pub customer_expense_map: Vec<CustomerLog>,
}

#[verifier::ext_equal]
pub struct DayLogV {
    pub day: Seq<u8>,
    pub amounts: Seq<u8>,
}

#[verifier::ext_equal]
pub struct CustomerLogV {
    pub phone: Seq<u8>,
    pub days: Seq<DayLogV>,
}

#[verifier::ext_equal]
pub struct LedgerV {
    pub pooled: int,
    pub eligible: int,
    pub given: int,
    pub customers: Seq<CustomerLogV>,
}

impl View for DayLog {
    type V = DayLogV;

    open spec fn view(&self) -> DayLogV {
        DayLogV { day: self.day@, amounts: self.amounts@ }
    }
}

impl View for CustomerLog {
    type V = CustomerLogV;

    open spec fn view(&self) -> CustomerLogV {
        CustomerLogV { phone: self.phone@, days: self.days@.map_values(|d: DayLog| d@) }
    }
}

impl View for CustomerDiscountDetails {
    type V = LedgerV;

    open spec fn view(&self) -> LedgerV {
        LedgerV {
            pooled: self.total_pooled_amount as int,
            eligible: self.total_eligible_customers as int,
            given: self.total_discount_given as int,
            customers: self.customer_expense_map@.map_values(|c: CustomerLog| c@),
        }
    }
}

/// The aggregate a week starts from: nothing pooled, nobody seen.
pub open spec fn spec_empty_ledger() -> LedgerV {
    LedgerV { pooled: 0, eligible: 0, given: 0, customers: Seq::empty() }
}

pub open spec fn has_day(days: Seq<DayLogV>, day: Seq<u8>) -> bool {
    exists|i: int| 0 <= i < days.len() && (#[trigger] days[i]).day == day
}

pub open spec fn has_phone(cs: Seq<CustomerLogV>, phone: Seq<u8>) -> bool {
    exists|i: int| 0 <= i < cs.len() && (#[trigger] cs[i]).phone == phone
}

/// The phone already has an amount logged for `day`.
pub open spec fn spec_transacted(l: LedgerV, phone: Seq<u8>, day: Seq<u8>) -> bool {
    exists|i: int|
        0 <= i < l.customers.len() && (#[trigger] l.customers[i]).phone == phone && has_day(
            l.customers[i].days,
            day,
        )
}

pub open spec fn days_wf(days: Seq<DayLogV>) -> bool {
    forall|i: int, j: int| 0 <= i < j < days.len() ==> (#[trigger] days[i]).day != (
    #[trigger] days[j]).day
}

pub open spec fn customers_wf(cs: Seq<CustomerLogV>) -> bool {
    &&& forall|i: int, j: int|
        0 <= i < j < cs.len() ==> (#[trigger] cs[i]).phone != (#[trigger] cs[j]).phone
    &&& forall|i: int| 0 <= i < cs.len() ==> days_wf((#[trigger] cs[i]).days)
}

/// Keys are unique at both levels: each phone once, each day once per phone.
pub open spec fn ledger_wf(l: LedgerV) -> bool {
    customers_wf(l.customers)
}

/// The numeric ranges a stored aggregate may carry; every decoded record
/// satisfies them, and they keep the engine's arithmetic in machine range.
pub open spec fn ledger_bounded(l: LedgerV) -> bool {
    &&& -(MONEY_CAP as int) <= l.pooled <= MONEY_CAP as int
    &&& 0 <= l.eligible <= COUNT_CAP as int
    &&& -(MONEY_CAP as int) <= l.given <= MONEY_CAP as int
}

/// The index of `phone` in `cs`; meaningful only when the phone is present
/// and the list is well formed.
pub open spec fn phone_index(cs: Seq<CustomerLogV>, phone: Seq<u8>) -> int {
    choose|i: int| 0 <= i < cs.len() && (#[trigger] cs[i]).phone == phone
}

pub open spec fn day_index(days: Seq<DayLogV>, day: Seq<u8>) -> int {
    choose|i: int| 0 <= i < days.len() && (#[trigger] days[i]).day == day
}

pub proof fn lemma_phone_index_unique(cs: Seq<CustomerLogV>, phone: Seq<u8>, i: int)
    requires
        customers_wf(cs),
        0 <= i < cs.len(),
        cs[i].phone == phone,
    ensures
        phone_index(cs, phone) == i,
{
    assert(0 <= i < cs.len() && (#[trigger] cs[i]).phone == phone);
    let c = phone_index(cs, phone);
    assert(0 <= c < cs.len() && cs[c].phone == phone);
    if c < i {
        assert(cs[c].phone != cs[i].phone);
    } else if i < c {
        assert(cs[i].phone != cs[c].phone);
    }
}

pub proof fn lemma_day_index_unique(days: Seq<DayLogV>, day: Seq<u8>, i: int)
    requires
        days_wf(days),
        0 <= i < days.len(),
        days[i].day == day,
    ensures
        day_index(days, day) == i,
{
    assert(0 <= i < days.len() && (#[trigger] days[i]).day == day);
    let c = day_index(days, day);
    assert(0 <= c < days.len() && days[c].day == day);
    if c < i {
        assert(days[c].day != days[i].day);
    } else if i < c {
        assert(days[i].day != days[c].day);
    }
}

/// A day list after logging `txt` for `day`: appended to the day's list when
/// the day exists (after a comma unless the list was empty), else a new day.
pub open spec fn spec_log_day(days: Seq<DayLogV>, day: Seq<u8>, txt: Seq<u8>) -> Seq<DayLogV> {
    if has_day(days, day) {
        let j = day_index(days, day);
        let prev = days[j].amounts;
        let upd = if prev.len() == 0 {
            txt
        } else {
            prev + seq![44u8] + txt
        };
        days.update(j, DayLogV { day: day, amounts: upd })
    } else {
        days.push(DayLogV { day: day, amounts: txt })
    }
}

/// The customer list after logging `txt` for `phone` on `day`.
pub open spec fn spec_log_customers(
    cs: Seq<CustomerLogV>,
    phone: Seq<u8>,
    day: Seq<u8>,
    txt: Seq<u8>,
) -> Seq<CustomerLogV> {
    if has_phone(cs, phone) {
        let i = phone_index(cs, phone);
        cs.update(i, CustomerLogV { phone: phone, days: spec_log_day(cs[i].days, day, txt) })
    } else {
        cs.push(CustomerLogV { phone: phone, days: seq![DayLogV { day: day, amounts: txt }] })
    }
}

/// Logging into a well-formed day list keeps its keys unique.
pub proof fn lemma_log_day_wf(days: Seq<DayLogV>, day: Seq<u8>, txt: Seq<u8>)
    requires
        days_wf(days),
    ensures
        days_wf(spec_log_day(days, day, txt)),
{
    let out = spec_log_day(days, day, txt);
    if has_day(days, day) {
        let j = day_index(days, day);
        assert forall|a: int, b: int| 0 <= a < b < out.len() implies (#[trigger] out[a]).day != (
        #[trigger] out[b]).day by {
            assert(out[a].day == days[a].day);
            assert(out[b].day == days[b].day);
        }
    } else {
        assert forall|a: int, b: int| 0 <= a < b < out.len() implies (#[trigger] out[a]).day != (
        #[trigger] out[b]).day by {
            if b < days.len() {
                assert(days[a].day != days[b].day);
            } else {
                assert(out[b].day == day);
                assert(out[a].day == days[a].day);
                assert(!(0 <= a < days.len() && (#[trigger] days[a]).day == day));
            }
        }
    }
}

/// First index whose entry is keyed by `phone`.
fn find_phone_idx(v: &Vec<CustomerLog>, phone: &[u8]) -> (r: Option<usize>)
    ensures
        match r {
            Some(i) => i < v@.len() && v@[i as int]@.phone == phone@,
            None => forall|k: int| 0 <= k < v@.len() ==> (#[trigger] v@[k]@).phone != phone@,
        },
{
    let n = v.len();
    let mut i: usize = 0;
    while i < n
        invariant
            i <= n,
            n == v@.len(),
            forall|k: int| 0 <= k < i ==> (#[trigger] v@[k]@).phone != phone@,
        decreases n - i,
    {
        if eq_bytes(v[i].phone.as_slice(), phone) {
            return Some(i);
        }
        i += 1;
    }
    None
}

/// First index whose entry is keyed by `day`.
fn find_day_idx(v: &Vec<DayLog>, day: &[u8]) -> (r: Option<usize>)
    ensures
        match r {
            Some(j) => j < v@.len() && v@[j as int]@.day == day@,
            None => forall|k: int| 0 <= k < v@.len() ==> (#[trigger] v@[k]@).day != day@,
        },
{
    let n = v.len();
    let mut j: usize = 0;
    while j < n
        invariant
            j <= n,
            n == v@.len(),
            forall|k: int| 0 <= k < j ==> (#[trigger] v@[k]@).day != day@,
        decreases n - j,
    {
        if eq_bytes(v[j].day.as_slice(), day) {
            return Some(j);
        }
        j += 1;
    }
    None
}

impl Default for CustomerDiscountDetails {
    /// The empty aggregate a missing store record stands for.
    fn default() -> (r: CustomerDiscountDetails)
        ensures
            r@ == spec_empty_ledger(),
            ledger_wf(r@),
            ledger_bounded(r@),
    {
        let r = CustomerDiscountDetails {
            total_pooled_amount: 0,
            total_eligible_customers: 0,
            total_discount_given: 0,
            customer_expense_map: Vec::new(),
        };
        proof {
            assert(r@.customers =~= spec_empty_ledger().customers);
            assert(r@ == spec_empty_ledger());
        }
        r
    }
}

impl CustomerDiscountDetails {
    /// Structural invariant of the association lists.
    pub open spec fn wf(&self) -> bool {
        ledger_wf(self@)
    }

    /// The phone appears somewhere in this week's map.
    pub fn has_customer(&self, phone: &[u8]) -> (r: bool)
        ensures
            r == has_phone(self@.customers, phone@),
    {
        match find_phone_idx(&self.customer_expense_map, phone) {
            Some(i) => {
                proof {
                    assert(self@.customers[i as int].phone == phone@);
                }
                true
            },
            None => {
                proof {
                    assert(forall|k: int|
                        0 <= k < self@.customers.len() ==> (#[trigger] self@.customers[k]).phone
                            != phone@);
                }
                false
            },
        }
    }

    /// The phone already has an amount logged for `day` this week.
    pub fn transacted_on(&self, phone: &[u8], day: &[u8]) -> (r: bool)
        requires
            self.wf(),
        ensures
            r == spec_transacted(self@, phone@, day@),
    {
        match find_phone_idx(&self.customer_expense_map, phone) {
            Some(i) => {
                let entry = &self.customer_expense_map[i];
                match find_day_idx(&entry.days, day) {
                    Some(j) => {
                        proof {
                            assert(self@.customers[i as int].phone == phone@);
                            assert(self@.customers[i as int].days[j as int].day == day@);
                            assert(has_day(self@.customers[i as int].days, day@));
                        }
                        true
                    },
                    None => {
                        proof {
                            assert forall|k: int|
                                0 <= k < self@.customers.len() implies !((
                            #[trigger] self@.customers[k]).phone == phone@ && has_day(
                                self@.customers[k].days,
                                day@,
                            )) by {
                                if self@.customers[k].phone == phone@ && has_day(
                                    self@.customers[k].days,
                                    day@,
                                ) {
                                    lemma_phone_index_unique(self@.customers, phone@, k);
                                    lemma_phone_index_unique(self@.customers, phone@, i as int);
                                    assert(k == i as int);
                                    let w = choose|w: int|
                                        0 <= w < self@.customers[k].days.len() && (
                                        #[trigger] self@.customers[k].days[w]).day == day@;
                                    assert(self@.customers[i as int].days[w].day == day@);
                                    assert(false);
                                }
                            }
                        }
                        false
                    },
                }
            },
            None => {
                proof {
                    assert forall|k: int|
                        0 <= k < self@.customers.len() implies !((
                    #[trigger] self@.customers[k]).phone == phone@ && has_day(
                        self@.customers[k].days,
                        day@,
                    )) by {}
                }
                false
            },
        }
    }

    /// Logs `txt` as a final amount for `phone` on `day`, counting the phone
    /// as a newly eligible customer on its first appearance this week.
    pub fn log_expense(&mut self, phone: &[u8], day: &[u8], txt: &[u8])
        requires
            old(self).wf(),
            old(self).total_eligible_customers < u64::MAX,
        ensures
            final(self).wf(),
            final(self)@.customers == spec_log_customers(old(self)@.customers, phone@, day@, txt@),
            final(self)@.pooled == old(self)@.pooled,
            final(self)@.given == old(self)@.given,
            final(self)@.eligible == old(self)@.eligible + (if has_phone(
                old(self)@.customers,
                phone@,
            ) {
                0int
            } else {
                1int
            }),
    {
        let ghost oldcs = self@.customers;
        match find_phone_idx(&self.customer_expense_map, phone) {
            Some(i) => {
                proof {
                    assert(oldcs[i as int].phone == phone@);
                    assert(has_phone(oldcs, phone@));
                    lemma_phone_index_unique(oldcs, phone@, i as int);
                    assert(days_wf(oldcs[i as int].days));
                }
                let mut entry = self.customer_expense_map.remove(i);
                proof {
                    assert(entry@ == oldcs[i as int]);
                }
                let ghost oldentry = entry@;
                match find_day_idx(&entry.days, day) {
                    Some(j) => {
                        proof {
                            assert(oldentry.days[j as int].day == day@);
                            assert(has_day(oldentry.days, day@));
                            lemma_day_index_unique(oldentry.days, day@, j as int);
                        }
                        let ghost prev = oldentry.days[j as int].amounts;
                        let mut dl = entry.days.remove(j);
                        if dl.amounts.len() == 0 {
                            dl.amounts = crate::text::copy_bytes(txt);
                        } else {
                            dl.amounts.push(44);
                            crate::text::append_bytes(&mut dl.amounts, txt);
                            proof {
                                assert(dl@.amounts =~= prev + seq![44u8] + txt@);
                            }
                        }
                        entry.days.insert(j, dl);
                        proof {
                            assert(entry@.days =~~= spec_log_day(oldentry.days, day@, txt@));
                        }
                    },
                    None => {
                        proof {
                            assert(!has_day(oldentry.days, day@));
                        }
                        entry.days.push(
                            DayLog {
                                day: crate::text::copy_bytes(day),
                                amounts: crate::text::copy_bytes(txt),
                            },
                        );
                        proof {
                            assert(entry@.days =~= spec_log_day(oldentry.days, day@, txt@));
                        }
                    },
                }
                let ghost newentry = entry@;
                self.customer_expense_map.insert(i, entry);
                proof {
                    assert(newentry == CustomerLogV {
                        phone: phone@,
                        days: spec_log_day(oldcs[i as int].days, day@, txt@),
                    });
                    assert(self@.customers =~= oldcs.update(i as int, newentry));
                    assert(self@.customers =~= spec_log_customers(oldcs, phone@, day@, txt@));
                    lemma_log_day_wf(oldcs[i as int].days, day@, txt@);
                    assert forall|a: int, b: int|
                        0 <= a < b < self@.customers.len() implies (
                    #[trigger] self@.customers[a]).phone != (#[trigger] self@.customers[b]).phone
                        by {
                        assert(oldcs[a].phone != oldcs[b].phone);
                    }
                    assert forall|a: int|
                        0 <= a < self@.customers.len() implies days_wf(
                        (#[trigger] self@.customers[a]).days,
                    ) by {
                        if a != i as int {
                            assert(self@.customers[a] == oldcs[a]);
                            assert(days_wf(oldcs[a].days));
                        }
                    }
                    assert(customers_wf(self@.customers));
                }
            },
            None => {
                proof {
                    assert(!has_phone(oldcs, phone@));
                }
                let mut first_days: Vec<DayLog> = Vec::new();
                first_days.push(
                    DayLog {
                        day: crate::text::copy_bytes(day),
                        amounts: crate::text::copy_bytes(txt),
                    },
                );
                let entry = CustomerLog { phone: crate::text::copy_bytes(phone), days: first_days };
                proof {
                    assert(entry@.days =~= seq![DayLogV { day: day@, amounts: txt@ }]);
                }
                self.customer_expense_map.push(entry);
                self.total_eligible_customers = self.total_eligible_customers + 1;
                proof {
                    assert(self@.customers =~= spec_log_customers(oldcs, phone@, day@, txt@));
                    assert forall|a: int, b: int|
                        0 <= a < b < self@.customers.len() implies (
                    #[trigger] self@.customers[a]).phone != (#[trigger] self@.customers[b]).phone
                        by {
                        if b < oldcs.len() {
                            assert(oldcs[a].phone != oldcs[b].phone);
                        } else {
                            assert(self@.customers[b].phone == phone@);
                            assert(self@.customers[a] == oldcs[a]);
                        }
                    }
                    assert forall|a: int|
                        0 <= a < self@.customers.len() implies days_wf(
                        (#[trigger] self@.customers[a]).days,
                    ) by {
                        if a < oldcs.len() {
                            assert(self@.customers[a] == oldcs[a]);
                            assert(days_wf(oldcs[a].days));
                        }
                    }
                    assert(customers_wf(self@.customers));
                }
            },
        }
    }
}

} // verus!

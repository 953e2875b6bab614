//! The store's table definition, and the decision taken at startup from what
//! the catalog holds for the table: create it, keep it, or migrate it from
//! the per-event layout.
use vstd::prelude::*;

verus! {

/// The name of the page-view table.
pub const TABLE_NAME: &'static str = "pageviews";

/// The definition of the aggregated table, as the catalog stores it.
pub const CREATE_AGGREGATE_TABLE: &'static str = "CREATE TABLE pageviews (domain TEXT NOT NULL, page TEXT NOT NULL, date TEXT NOT NULL, view_count INTEGER NOT NULL, PRIMARY KEY (domain, page, date))";

/// The column of the per-event layout that no aggregated table has.
pub const LEGACY_MARKER: &'static str = "ts INTEGER";

/// What startup does to the store.
#[derive(Clone, Copy, Debug, PartialEq, Eq, Structural)]
pub enum SchemaAction {
    /// No table yet: create the aggregated one.
    Create,
    /// The aggregated table is there: leave it.
    Keep,
    /// A per-event table is there: aggregate it into a new table and drop it.
    Migrate,
}

/// `t` occurs in `s`.
pub open spec fn has_substring(s: Seq<char>, t: Seq<char>) -> bool {
    exists|i: int| 0 <= i && i + t.len() <= s.len() && #[trigger] s.subrange(i, i + t.len()) == t
}

/// The action for the table definition that the catalog holds, if any.
pub open spec fn spec_schema_action(definition: Option<Seq<char>>) -> SchemaAction {
    match definition {
        None => SchemaAction::Create,
        Some(d) => if has_substring(d, LEGACY_MARKER@) { SchemaAction::Migrate } else { SchemaAction::Keep },
    }
}

/// The definition the catalog holds after an action: the one it held where
/// the table is kept, the aggregated one where it is created or migrated.
pub open spec fn definition_after(definition: Option<Seq<char>>) -> Option<Seq<char>> {
    match spec_schema_action(definition) {
        SchemaAction::Keep => definition,
        _ => Some(CREATE_AGGREGATE_TABLE@),
    }
}

pub open spec fn opt_str_view(v: Option<&str>) -> Option<Seq<char>> {
    match v {
        Some(s) => Some(s@),
        None => None,
    }
}

/// Whether `t` occurs in `s`.
pub fn contains_text(s: &str, t: &str) -> (r: bool)
    ensures
        r == has_substring(s@, t@),
{
    let n = s.unicode_len();
    let m = t.unicode_len();
    if m > n {
        return false;
    }
    let mut i: usize = 0;
    while i <= n - m
        invariant
            n == s@.len(),
            m == t@.len(),
            m <= n,
            i <= n - m + 1,
            forall|j: int| 0 <= j < i ==> #[trigger] s@.subrange(j, j + m) != t@,
        decreases n - m + 1 - i,
    {
        let mut k: usize = 0;
        let mut same = true;
        while k < m && same
            invariant
                n == s@.len(),
                m == t@.len(),
                i + m <= n,
                k <= m,
                same ==> forall|q: int| 0 <= q < k ==> s@[i + q] == t@[q],
                !same ==> s@[i + k] != t@[k as int] && k < m,
            decreases m - k + (if same { 1int } else { 0 }),
        {
            if s.get_char(i + k) != t.get_char(k) {
                same = false;
            } else {
                k = k + 1;
            }
        }
        if same {
            proof {
                assert(s@.subrange(i as int, i + m) =~= t@);
            }
            return true;
        }
        proof {
            assert(s@.subrange(i as int, i + m)[k as int] != t@[k as int]);
        }
        i = i + 1;
    }
    false
}

/// The action for the table definition that the catalog holds: `None`
/// where there is no table.
pub fn schema_action(definition: Option<&str>) -> (r: SchemaAction)
    ensures
        r == spec_schema_action(opt_str_view(definition)),
{
    match definition {
        None => SchemaAction::Create,
        Some(d) => if contains_text(d, LEGACY_MARKER) { SchemaAction::Migrate } else { SchemaAction::Keep },
    }
}

/// The aggregated table's definition holds no legacy marker.
pub proof fn lemma_aggregate_definition_is_current()
    ensures
        !has_substring(CREATE_AGGREGATE_TABLE@, LEGACY_MARKER@),
{
    reveal_strlit("CREATE TABLE pageviews (domain TEXT NOT NULL, page TEXT NOT NULL, date TEXT NOT NULL, view_count INTEGER NOT NULL, PRIMARY KEY (domain, page, date))");
    reveal_strlit("ts INTEGER");
    let s = CREATE_AGGREGATE_TABLE@;
    let t = LEGACY_MARKER@;
    assert forall|i: int| 0 <= i && i + t.len() <= s.len() implies #[trigger] s.subrange(i, i + t.len()) != t by {
        assert(s.subrange(i, i + t.len())[0] == s[i]);
        assert(s.subrange(i, i + t.len())[1] == s[i + 1]);
    }
}

/// Ensuring the schema twice changes nothing the second time: whatever the
/// catalog held, after one startup the next one keeps the table as it is.
pub proof fn law_schema_settles(definition: Option<Seq<char>>)
    ensures
        spec_schema_action(definition_after(definition)) == SchemaAction::Keep,
        definition_after(definition_after(definition)) == definition_after(definition),
{
    lemma_aggregate_definition_is_current();
}

} // verus!

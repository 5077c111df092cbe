use vstd::prelude::*;
use crate::MAX_SCAN_FILES;
use crate::cursor::cursor_key;
use crate::cursor::parse_cursor;
use crate::filename::RolloutKey;
use crate::pager::PagePlan;
use crate::pager::next_cursor_ok;
use crate::pager::page_state;
use crate::pager::snap_lens_ok;
use crate::pager::traverse_directories_for_paths;
use crate::sort::views_of;
use crate::walk::SessionsDir;
use crate::walk::keys_valid;

verus! {

/// Summary of one conversation rollout file: where it lives and the first
/// few parsed records of its log.
pub struct ConversationItem {
    /// Path of the rollout file.
    pub path: String,
    /// Up to `MAX_HEAD_RECORDS` leading records parsed as JSON values.
    pub head: Vec<serde_json::Value>,
}

/// One returned page of conversation summaries, newest first.
pub struct ConversationsPage {
    /// Conversation summaries ordered newest first.
    pub items: Vec<ConversationItem>,
    /// Opaque pagination token to resume after the last item, absent at the
    /// end of the data.
    pub next_cursor: Option<String>,
    /// How many files with decodable rollout names were scanned.
    pub scanned_files: usize,
    /// Whether the hard scan cap was reached during this request.
    pub reached_scan_cap: bool,
}

/// The page served when the sessions root does not exist at all: empty, with
/// no cursor and nothing scanned.
pub fn empty_page() -> (r: ConversationsPage)
    ensures
        r.items@.len() == 0,
        r.next_cursor is None,
        r.scanned_files == 0,
        r.reached_scan_cap == false,
{
    ConversationsPage { items: Vec::new(), next_cursor: None, scanned_files: 0, reached_scan_cap: false }
}

/// The anchor a request runs with: the cursor's key, or none when no cursor
/// was given or the token is malformed — listing then restarts from the
/// newest file instead of erroring.
pub open spec fn anchor_of(cursor: Option<Seq<char>>) -> Option<RolloutKey> {
    match cursor {
        Some(c) => cursor_key(c),
        None => None,
    }
}

/// Decode the cursor and plan one page over the snapshot: which files are
/// selected in which order, the scan diagnostics, and the continuation
/// token. The caller reads the selected files' heads afterwards.
pub fn plan_conversations_page(
    root: &str,
    snap: &SessionsDir,
    page_size: usize,
    cursor: Option<&str>,
) -> (r: PagePlan)
    requires
        snap_lens_ok(*snap),
    ensures
        ({
            let anchor = anchor_of(
                match cursor {
                    Some(c) => Some(c@),
                    None => None,
                },
            );
            let ps = page_state(root@, *snap, page_size as nat, anchor);
            &&& views_of(r.selected@) == ps.items
            &&& r.scanned_files as nat == ps.scanned
            &&& r.reached_scan_cap == (ps.scanned >= MAX_SCAN_FILES as int)
            &&& next_cursor_ok(r.next_cursor, ps)
            &&& keys_valid(views_of(r.selected@))
        }),
{
    let anchor = match cursor {
        Some(c) => parse_cursor(c),
        None => None,
    };
    traverse_directories_for_paths(root, snap, page_size, anchor)
}

/// Attach the heads the caller read to the planned page, in order, and hand
/// out the finished page: item `i` pairs the `i`-th selected path with the
/// `i`-th head; cursor and diagnostics carry over unchanged.
pub fn attach_heads(plan: PagePlan, heads: Vec<Vec<serde_json::Value>>) -> (r: ConversationsPage)
    requires
        heads@.len() == plan.selected@.len(),
    ensures
        r.items@.len() == plan.selected@.len(),
        forall|i: int|
            0 <= i < r.items@.len() ==> (#[trigger] r.items@[i]).path@ == plan.selected@[i]@.path
                && r.items@[i].head == heads@[i],
        r.next_cursor == plan.next_cursor,
        r.scanned_files == plan.scanned_files,
        r.reached_scan_cap == plan.reached_scan_cap,
{
    let mut selected = plan.selected;
    let mut heads = heads;
    let ghost sel0 = selected@;
    let ghost heads0 = heads@;
    let mut items: Vec<ConversationItem> = Vec::new();
    while selected.len() > 0
        invariant
            heads@.len() == selected@.len(),
            items@.len() + selected@.len() == sel0.len(),
            sel0.len() == heads0.len(),
            forall|i: int|
                0 <= i < selected@.len() ==> (#[trigger] selected@[i]) == sel0[items@.len() + i],
            forall|i: int|
                0 <= i < heads@.len() ==> (#[trigger] heads@[i]) == heads0[items@.len() + i],
            forall|i: int|
                0 <= i < items@.len() ==> (#[trigger] items@[i]).path@ == sel0[i]@.path
                    && items@[i].head == heads0[i],
        decreases selected.len(),
    {
        let f = selected.remove(0);
        let h = heads.remove(0);
        items.push(ConversationItem { path: f.path, head: h });
    }
    ConversationsPage {
        items,
        next_cursor: plan.next_cursor,
        scanned_files: plan.scanned_files,
        reached_scan_cap: plan.reached_scan_cap,
    }
}

} // verus!

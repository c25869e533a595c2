//! The atomic save protocol, as a model.
//!
//! A save never writes the domain file in place.  It writes the new
//! bytes to a sibling temporary file, restores the original ownership on
//! that file, renames it onto the final path, and reapplies the original
//! permission bits.  The model here holds the two files such a save can
//! touch and one step type per action, so the protocol's two guarantees
//! can be stated and proved: nothing before the rename changes the
//! original file, and the finished save leaves the original owner and
//! mode on the result.

use vstd::prelude::*;

verus! {

/// A file as the save protocol sees it: content, owner, permission bits.
#[derive(Debug)]
pub struct FileMeta {
    pub bytes: Vec<u8>,
    pub owner: (u32, u32),
    pub mode: u32,
}

/// Model of a `FileMeta`.
pub struct SpecFile {
    pub bytes: Seq<u8>,
    pub owner: (u32, u32),
    pub mode: u32,
}

impl View for FileMeta {
    type V = SpecFile;

    open spec fn view(&self) -> SpecFile {
        SpecFile { bytes: self.bytes@, owner: self.owner, mode: self.mode }
    }
}

/// The two paths a save can touch: the domain file itself and its
/// sibling temporary file.
#[derive(Debug)]
pub struct SaveState {
    pub target: Option<FileMeta>,
    pub temp: Option<FileMeta>,
}

/// Model of the target file.
pub open spec fn spec_target(st: SaveState) -> Option<SpecFile> {
    match st.target {
        Some(f) => Some(f@),
        None => None,
    }
}

/// Model of the temporary file.
pub open spec fn spec_temp(st: SaveState) -> Option<SpecFile> {
    match st.temp {
        Some(f) => Some(f@),
        None => None,
    }
}

/// One action of the save protocol, in the order the protocol runs them:
/// write the serialized bytes to the temporary file, restore ownership on
/// it, rename it onto the final path, reapply the original mode.
#[derive(Debug)]
pub enum SaveStep {
    /// Create the temporary file with the new bytes; a fresh file carries
    /// the writing process's owner and the default creation mode.
    WriteTmp(Vec<u8>, (u32, u32), u32),
    /// Restore the recorded owner on the temporary file.
    ChownTmp((u32, u32)),
    /// Atomically move the temporary file onto the final path.
    Rename,
    /// Reapply the recorded permission bits to the final path.
    Chmod(u32),
}

/// Whether a step comes before the rename in the protocol: one that only
/// prepares the temporary file.
pub open spec fn spec_pre_rename(s: SaveStep) -> bool {
    s is WriteTmp || s is ChownTmp
}

/// Apply one step.  The steps before the rename leave the target file
/// untouched: the rename is the point at which the domain file changes.
pub fn apply_step(st: &mut SaveState, step: &SaveStep)
    ensures
        spec_pre_rename(*step) ==> spec_target(*final(st)) == spec_target(*old(st)),
        step matches SaveStep::WriteTmp(b, who, mode) ==> spec_temp(*final(st)) matches Some(f)
            && f.bytes == b@ && f.owner == who && f.mode == mode,
        step matches SaveStep::ChownTmp(who) ==> (match spec_temp(*old(st)) {
            Some(f0) => spec_temp(*final(st)) == Some(
                SpecFile { bytes: f0.bytes, owner: *who, mode: f0.mode },
            ),
            None => spec_temp(*final(st)) == None::<SpecFile>,
        }),
        step is Rename ==> spec_target(*final(st)) == spec_temp(*old(st)) && spec_temp(*final(st))
            == None::<SpecFile>,
        step matches SaveStep::Chmod(mode) ==> spec_temp(*final(st)) == spec_temp(*old(st)) && (
        match spec_target(*old(st)) {
            Some(f0) => spec_target(*final(st)) == Some(
                SpecFile { bytes: f0.bytes, owner: f0.owner, mode: *mode },
            ),
            None => spec_target(*final(st)) == None::<SpecFile>,
        }),
{
    match step {
        SaveStep::WriteTmp(bytes, who, mode) => {
            let mut copy: Vec<u8> = Vec::new();
            let n = bytes.len();
            for k in 0..n
                invariant
                    n == bytes.len(),
                    copy.len() == k,
                    forall|j: int| 0 <= j < k ==> copy@[j] == bytes@[j],
                decreases n - k,
            {
                copy.push(bytes[k]);
            }
            proof {
                assert(copy@ =~= bytes@);
            }
            st.temp = Some(FileMeta { bytes: copy, owner: *who, mode: *mode });
        },
        SaveStep::ChownTmp(who) => {
            let mut t: Option<FileMeta> = None;
            core::mem::swap(&mut t, &mut st.temp);
            match t {
                Some(f) => {
                    st.temp = Some(FileMeta { bytes: f.bytes, owner: *who, mode: f.mode });
                },
                None => {},
            }
        },
        SaveStep::Rename => {
            let mut moved: Option<FileMeta> = None;
            core::mem::swap(&mut moved, &mut st.temp);
            st.target = moved;
        },
        SaveStep::Chmod(mode) => {
            let mut t: Option<FileMeta> = None;
            core::mem::swap(&mut t, &mut st.target);
            match t {
                Some(f) => {
                    st.target = Some(FileMeta { bytes: f.bytes, owner: f.owner, mode: *mode });
                },
                None => {},
            }
        },
    }
}

/// Apply a sequence of steps in order.  If all of them come before the
/// rename — a save interrupted anywhere before its commit point — the
/// target file is byte-for-byte what it was before the save began.
pub fn apply_steps(st: &mut SaveState, steps: &Vec<SaveStep>)
    ensures
        (forall|j: int| 0 <= j < steps@.len() ==> spec_pre_rename(#[trigger] steps@[j]))
            ==> spec_target(*final(st)) == spec_target(*old(st)),
{
    let ghost t0 = spec_target(*st);
    let n = steps.len();
    for i in 0..n
        invariant
            n == steps.len(),
            (forall|j: int| 0 <= j < i ==> spec_pre_rename(#[trigger] steps@[j])) ==> spec_target(
                *st,
            ) == t0,
        decreases n - i,
    {
        apply_step(st, &steps[i]);
    }
}

/// The steps of one save, in protocol order: write the temporary file,
/// restore ownership on it when an owner was recorded, rename, reapply
/// the mode when one was captured.
pub fn save_steps(
    bytes: Vec<u8>,
    process_owner: (u32, u32),
    default_mode: u32,
    chown: Option<(u32, u32)>,
    keep_mode: Option<u32>,
) -> (steps: Vec<SaveStep>)
    ensures
        steps@.len() >= 2,
        steps@[0] matches SaveStep::WriteTmp(b, who, m) && b@ == bytes@ && who == process_owner
            && m == default_mode,
{
    let mut steps: Vec<SaveStep> = Vec::new();
    steps.push(SaveStep::WriteTmp(bytes, process_owner, default_mode));
    match chown {
        Some(who) => steps.push(SaveStep::ChownTmp(who)),
        None => {},
    }
    steps.push(SaveStep::Rename);
    match keep_mode {
        Some(m) => steps.push(SaveStep::Chmod(m)),
        None => {},
    }
    steps
}

/// Run one complete save against the model.  The target file ends with
/// exactly the new bytes; it is owned by the recorded owner when one was
/// given — a privileged save on another user's file hands the file back
/// to that user — and by the writing process otherwise; and it carries
/// the recorded mode when one was captured, the creation default
/// otherwise.  No temporary file is left behind.
pub fn run_save(
    st: &mut SaveState,
    bytes: Vec<u8>,
    process_owner: (u32, u32),
    default_mode: u32,
    chown: Option<(u32, u32)>,
    keep_mode: Option<u32>,
)
    ensures
        spec_target(*final(st)) matches Some(f) && f.bytes == bytes@ && f.owner == (match chown {
            Some(who) => who,
            None => process_owner,
        }) && f.mode == (match keep_mode {
            Some(m) => m,
            None => default_mode,
        }),
        spec_temp(*final(st)) == None::<SpecFile>,
{
    apply_step(st, &SaveStep::WriteTmp(bytes, process_owner, default_mode));
    match chown {
        Some(who) => apply_step(st, &SaveStep::ChownTmp(who)),
        None => {},
    }
    apply_step(st, &SaveStep::Rename);
    match keep_mode {
        Some(m) => apply_step(st, &SaveStep::Chmod(m)),
        None => {},
    }
}

} // verus!

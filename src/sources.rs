//! Where alternative records come from.
use vstd::prelude::*;

verus! {

/// A tabular file of alternatives, one row per alternative with the columns
/// `Asset_ID, Alternative_ID, Cost_USD, PoF_Post_Action, CoF_Total_USD, Safety_Risk_Level`.
pub struct CsvAssetRepository {
    pub file_path: String,
}

impl CsvAssetRepository {
    pub fn new(file_path: String) -> (r: Self)
        ensures
            r.file_path == file_path,
    {
        CsvAssetRepository { file_path }
    }
}

} // verus!

//! Feature vectors taken from a table of samples: the column that holds the
//! reference model's prediction, the feature that each other column holds,
//! and the vector that the values of a row make.

use vstd::prelude::*;

use crate::problem::{map_entries, name_lookup, ProblemDefinition};

verus! {

/// A sample: its feature vector (`bf16` bits, ordered by feature index) and
/// the class that the reference model predicts for it.
pub struct DataPoint {
    pub features: Vec<u16>,
    pub reference_prediction: u16,
}

/// The header of the column that holds the reference prediction.
pub open spec fn prediction_header() -> Seq<char> {
    "prediction"@
}

/// The index of the first column named `prediction`, if any.
pub fn prediction_column(headers: &Vec<String>) -> (r: Option<usize>)
    ensures
        match r {
            Some(i) => i < headers@.len() && headers@[i as int]@ == prediction_header() && forall|j: int|
                0 <= j < i ==> (#[trigger] headers@[j])@ != prediction_header(),
            None => forall|j: int| 0 <= j < headers@.len() ==> (#[trigger] headers@[j])@ != prediction_header(),
        },
{
    let name = "prediction".to_owned();
    let mut i: usize = 0;
    while i < headers.len()
        invariant
            name@ == prediction_header(),
            0 <= i <= headers@.len(),
            forall|j: int| 0 <= j < i ==> (#[trigger] headers@[j])@ != prediction_header(),
        decreases headers@.len() - i,
    {
        if headers[i] == name {
            return Some(i);
        }
        i = i + 1;
    }
    None
}

/// The feature that a column holds: none for the prediction column, else
/// the index of the feature named by its header, if there is one.
pub open spec fn column_feature(header: Seq<char>, features: Seq<(Seq<char>, u16)>) -> Option<u16> {
    if header == prediction_header() {
        None
    } else {
        name_lookup(features, header)
    }
}

/// For each column, the index of the feature it holds, if any.
pub fn column_features(headers: &Vec<String>, problem: &ProblemDefinition) -> (r: Vec<Option<u16>>)
    ensures
        r@.len() == headers@.len(),
        forall|i: int| 0 <= i < headers@.len() ==> #[trigger] r@[i] == column_feature(
            headers@[i]@,
            map_entries(problem.features_spec()),
        ),
{
    let name = "prediction".to_owned();
    let mut columns: Vec<Option<u16>> = Vec::new();
    let mut i: usize = 0;
    while i < headers.len()
        invariant
            name@ == prediction_header(),
            0 <= i <= headers@.len(),
            columns@.len() == i,
            forall|k: int| 0 <= k < i ==> #[trigger] columns@[k] == column_feature(
                headers@[k]@,
                map_entries(problem.features_spec()),
            ),
        decreases headers@.len() - i,
    {
        let feature = if headers[i] == name {
            None
        } else {
            problem.feature_index(headers[i].as_str())
        };
        columns.push(feature);
        i = i + 1;
    }
    columns
}

/// Every feature that a column holds is below `num_features`.
pub open spec fn columns_fit(columns: Seq<Option<u16>>, num_features: int) -> bool {
    forall|i: int| 0 <= i < columns.len() && (#[trigger] columns[i]) is Some ==> (columns[i]->0 as int) < num_features
}

/// Whether every feature that a column holds is below `num_features`, so
/// that a row's values can be placed in a vector of that length.
pub fn columns_within(columns: &Vec<Option<u16>>, num_features: usize) -> (b: bool)
    ensures
        b == columns_fit(columns@, num_features as int),
{
    let mut i: usize = 0;
    while i < columns.len()
        invariant
            0 <= i <= columns@.len(),
            forall|k: int| 0 <= k < i && (#[trigger] columns@[k]) is Some ==> (columns@[k]->0 as int) < num_features,
        decreases columns@.len() - i,
    {
        if let Some(f) = columns[i] {
            if f as usize >= num_features {
                return false;
            }
        }
        i = i + 1;
    }
    true
}

/// The value that feature `f` takes from the first `n` columns: that of the
/// last of them that holds it, or zero when none does.
pub open spec fn placed_value(columns: Seq<Option<u16>>, values: Seq<u16>, n: int, f: int) -> u16
    decreases n,
{
    if n <= 0 {
        0u16
    } else if columns[n - 1] matches Some(c) && c as int == f {
        values[n - 1]
    } else {
        placed_value(columns, values, n - 1, f)
    }
}

/// The feature vector of a row: each feature takes the value of the column
/// that holds it (the last one, when several do), and zero when no column
/// holds it. `values` holds the row's values, one per column, as `bf16`
/// bits; columns beyond the shorter of the two are ignored.
pub fn place_features(columns: &Vec<Option<u16>>, values: &Vec<u16>, num_features: usize) -> (r: Vec<u16>)
    requires
        forall|i: int| 0 <= i < columns@.len() && (#[trigger] columns@[i]) is Some ==> (columns@[i]->0 as int) < num_features,
    ensures
        r@.len() == num_features,
        forall|f: int| 0 <= f < num_features ==> #[trigger] r@[f] == placed_value(
            columns@,
            values@,
            if columns@.len() <= values@.len() { columns@.len() as int } else { values@.len() as int },
            f,
        ),
{
    let n = if columns.len() <= values.len() { columns.len() } else { values.len() };
    let mut row: Vec<u16> = Vec::new();
    let mut f: usize = 0;
    while f < num_features
        invariant
            0 <= f <= num_features,
            row@.len() == f,
            forall|k: int| 0 <= k < f ==> row@[k] == 0u16,
        decreases num_features - f,
    {
        row.push(0u16);
        f = f + 1;
    }
    let mut i: usize = 0;
    while i < n
        invariant
            n <= columns@.len(),
            n <= values@.len(),
            0 <= i <= n,
            row@.len() == num_features,
            forall|k: int| 0 <= k < columns@.len() && (#[trigger] columns@[k]) is Some ==> (columns@[k]->0 as int) < num_features,
            forall|g: int| 0 <= g < num_features ==> #[trigger] row@[g] == placed_value(columns@, values@, i as int, g),
        decreases n - i,
    {
        if let Some(feature) = columns[i] {
            row.set(feature as usize, values[i]);
        }
        i = i + 1;
    }
    row
}

/// The sample that a row makes: its feature vector, and the index of the
/// target named in its prediction column, if the problem has that target.
pub fn data_point(
    columns: &Vec<Option<u16>>,
    values: &Vec<u16>,
    prediction: &str,
    problem: &ProblemDefinition,
) -> (r: Option<DataPoint>)
    requires
        forall|i: int| 0 <= i < columns@.len() && (#[trigger] columns@[i]) is Some ==> (columns@[i]->0 as int) < map_entries(
            problem.features_spec(),
        ).len(),
    ensures
        match name_lookup(map_entries(problem.targets_spec()), prediction@) {
            Some(t) => r matches Some(p) && p.reference_prediction == t && p.features@.len() == map_entries(
                problem.features_spec(),
            ).len() && forall|f: int| 0 <= f < p.features@.len() ==> #[trigger] p.features@[f] == placed_value(
                columns@,
                values@,
                if columns@.len() <= values@.len() { columns@.len() as int } else { values@.len() as int },
                f,
            ),
            None => r is None,
        },
{
    let reference_prediction = match problem.target_index(prediction) {
        Some(t) => t,
        None => {
            return None;
        },
    };
    let features = place_features(columns, values, problem.num_features());
    Some(DataPoint { features, reference_prediction })
}

/// `p` is the sample that a row makes: the index of the target named in
/// its prediction column, and its feature vector.
pub open spec fn is_point_of(
    columns: Seq<Option<u16>>,
    values: Seq<u16>,
    prediction: Seq<char>,
    problem: ProblemDefinition,
    p: DataPoint,
) -> bool {
    &&& name_lookup(map_entries(problem.targets_spec()), prediction) == Some(p.reference_prediction)
    &&& p.features@.len() == map_entries(problem.features_spec()).len()
    &&& forall|f: int| 0 <= f < p.features@.len() ==> #[trigger] p.features@[f] == placed_value(
        columns,
        values,
        if columns.len() <= values.len() { columns.len() as int } else { values.len() as int },
        f,
    )
}

/// Why the rows of a sample table make no samples.
#[derive(Clone, Copy, Debug, PartialEq, Eq, Structural)]
pub enum SampleError {
    /// The table has no rows.
    NoRecords,
    /// The row at this index names a target that the problem does not have.
    UnknownTarget(usize),
}

/// Whether the row's prediction names a target of the problem.
pub open spec fn known_target(problem: ProblemDefinition, prediction: Seq<char>) -> bool {
    name_lookup(map_entries(problem.targets_spec()), prediction) is Some
}

/// The samples that the rows of a table make, one per row in row order:
/// row `i` has the values `rows[i]` (`bf16` bits, one per column) and the
/// prediction `predictions[i]`. The first row whose prediction names no
/// target of the problem is refused, and so is a table without rows.
pub fn sample_points(
    columns: &Vec<Option<u16>>,
    rows: &Vec<Vec<u16>>,
    predictions: &Vec<String>,
    problem: &ProblemDefinition,
) -> (r: Result<Vec<DataPoint>, SampleError>)
    requires
        rows@.len() == predictions@.len(),
        forall|i: int| 0 <= i < columns@.len() && (#[trigger] columns@[i]) is Some ==> (columns@[i]->0 as int) < map_entries(
            problem.features_spec(),
        ).len(),
    ensures
        r matches Ok(points) ==> points@.len() == rows@.len() && forall|i: int|
            0 <= i < rows@.len() ==> is_point_of(columns@, rows@[i]@, predictions@[i]@, *problem, #[trigger] points@[i]),
        r == Err::<Vec<DataPoint>, SampleError>(SampleError::NoRecords) <==> (rows@.len() == 0),
        r matches Err(SampleError::UnknownTarget(k)) ==> k < rows@.len() && !known_target(*problem, predictions@[k as int]@)
            && forall|j: int| 0 <= j < k ==> known_target(*problem, #[trigger] predictions@[j]@),
        r is Ok <==> rows@.len() > 0 && forall|i: int| 0 <= i < rows@.len() ==> known_target(*problem, #[trigger] predictions@[i]@),
{
    let mut points: Vec<DataPoint> = Vec::new();
    let mut i: usize = 0;
    while i < rows.len()
        invariant
            rows@.len() == predictions@.len(),
            forall|c: int| 0 <= c < columns@.len() && (#[trigger] columns@[c]) is Some ==> (columns@[c]->0 as int) < map_entries(
                problem.features_spec(),
            ).len(),
            0 <= i <= rows@.len(),
            points@.len() == i,
            forall|q: int| 0 <= q < i ==> is_point_of(columns@, rows@[q]@, predictions@[q]@, *problem, #[trigger] points@[q]),
            forall|j: int| 0 <= j < i ==> known_target(*problem, #[trigger] predictions@[j]@),
        decreases rows@.len() - i,
    {
        match data_point(columns, &rows[i], predictions[i].as_str(), problem) {
            Some(p) => {
                points.push(p);
            },
            None => {
                return Err(SampleError::UnknownTarget(i));
            },
        }
        i = i + 1;
    }
    if points.len() == 0 {
        return Err(SampleError::NoRecords);
    }
    Ok(points)
}

} // verus!

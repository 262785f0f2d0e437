use vstd::prelude::*;

verus! {

/// One sample: a timestamp in the configured precision and the IEEE-754
/// bit pattern of the 64-bit value.  Keeping the bits rather than the
/// float makes equality of samples exact.
#[derive(Clone, Copy, PartialEq, Eq, Structural, Debug)]
pub struct DataPoint {
    pub timestamp: i64,
    pub value: u64,
}

impl DataPoint {
    pub fn new(timestamp: i64, value: u64) -> (r: DataPoint)
        ensures
            r.timestamp == timestamp,
            r.value == value,
    {
        DataPoint { timestamp, value }
    }
}

/// One dimension of a metric: a `name = value` pair of strings.
#[derive(Clone, Debug)]
pub struct Label {
    pub name: String,
    pub value: String,
}

impl View for Label {
    type V = (Seq<char>, Seq<char>);

    open spec fn view(&self) -> (Seq<char>, Seq<char>) {
        (self.name@, self.value@)
    }
}

impl Label {
    pub fn new(name: &str, value: &str) -> (r: Label)
        ensures
            r@ == (name@, value@),
    {
        Label { name: name.to_string(), value: value.to_string() }
    }
}

/// One row of ingest: a metric name, its labels, and one sample.
#[derive(Clone, Debug)]
pub struct Row {
    pub metric: String,
    pub labels: Vec<Label>,
    pub point: DataPoint,
}

/// The view of a row: metric characters, label pairs, and the sample.
pub struct RowModel {
    pub metric: Seq<char>,
    pub labels: Seq<(Seq<char>, Seq<char>)>,
    pub point: DataPoint,
}

impl View for Row {
    type V = RowModel;

    open spec fn view(&self) -> RowModel {
        RowModel {
            metric: self.metric@,
            labels: self.labels@.map_values(|l: Label| l@),
            point: self.point,
        }
    }
}

impl Row {
    pub fn new(metric: &str, point: DataPoint) -> (r: Row)
        ensures
            r@.metric == metric@,
            r@.labels == Seq::<(Seq<char>, Seq<char>)>::empty(),
            r@.point == point,
    {
        let labels: Vec<Label> = Vec::new();
        assert(labels@.map_values(|l: Label| l@) =~= Seq::<(Seq<char>, Seq<char>)>::empty());
        Row { metric: metric.to_string(), labels, point }
    }

    pub fn with_labels(metric: &str, labels: Vec<Label>, point: DataPoint) -> (r: Row)
        ensures
            r@.metric == metric@,
            r@.labels == labels@.map_values(|l: Label| l@),
            r@.point == point,
    {
        Row { metric: metric.to_string(), labels, point }
    }

    pub fn metric(&self) -> (r: &str)
        ensures
            r@ == self@.metric,
    {
        self.metric.as_str()
    }

    pub fn labels(&self) -> (r: &Vec<Label>)
        ensures
            r@.map_values(|l: Label| l@) == self@.labels,
    {
        &self.labels
    }

    pub fn data_point(&self) -> (r: DataPoint)
        ensures
            r == self@.point,
    {
        self.point
    }
}

} // verus!

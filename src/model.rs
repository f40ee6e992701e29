use vstd::prelude::*;

verus! {

/// A tracked task: a named accumulator of seconds with an optional note.
#[derive(Debug, Clone)]
pub struct Task {
    pub id: i64,
    pub name: String,
    pub total_seconds: i64,
    pub created_at: String,
    pub note: Option<String>,
}

/// A named duration preset, independent of any task.
#[derive(Debug, Clone)]
pub struct Favourite {
    pub id: i64,
    pub name: String,
    pub duration_seconds: i64,
}

impl Task {
    /// A field-by-field copy of the record.
    pub fn duplicate(&self) -> (r: Task)
        ensures
            r == *self,
    {
        let note = match &self.note {
            Some(n) => Some(n.clone()),
            None => None,
        };
        Task {
            id: self.id,
            name: self.name.clone(),
            total_seconds: self.total_seconds,
            created_at: self.created_at.clone(),
            note,
        }
    }
}

impl Favourite {
    /// A field-by-field copy of the record.
    pub fn duplicate(&self) -> (r: Favourite)
        ensures
            r == *self,
    {
        Favourite { id: self.id, name: self.name.clone(), duration_seconds: self.duration_seconds }
    }
}

} // verus!

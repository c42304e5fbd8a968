//! The relational rows the pipeline consumes and the denormalized per-leg
//! record it produces.
//!
//! Coordinates are held as integers in units of 1e-7 degree and runway
//! elevations in thousandths of a foot, so that the proximity and altitude
//! rules can be stated and checked exactly. Numeric columns that the pipeline
//! never computes with (bearings, distances, headings, slopes) are carried as
//! their decimal text, unchanged.

use vstd::prelude::*;

verus! {

#[derive(Debug, Clone)]
pub struct Airport {
    pub id: i32,
    pub icao: String,
}

#[derive(Debug, Clone)]
pub struct Runway {
    pub id: i32,
    pub airport_id: i32,
    pub ident: String,
    pub true_heading: Option<String>,
    /// Latitude in 1e-7 degree units.
    pub latitude: i64,
    /// Longitude in 1e-7 degree units.
    pub longitude: i64,
    /// Elevation in thousandths of a foot.
    pub elevation_milli: i64,
}

#[derive(Debug, Clone)]
pub struct Terminal {
    pub id: i32,
    pub airport_id: i32,
    /// Procedure code: one of "1", "2", "3", "6", "A".
    pub proc: Option<String>,
    pub icao: String,
    pub name: String,
    pub rwy: Option<String>,
}

#[derive(Debug, Clone)]
pub struct TerminalLeg {
    pub id: i32,
    pub terminal_id: i32,
    pub type_field: Option<String>,
    pub transition: Option<String>,
    pub track_code: Option<String>,
    pub wpt_id: Option<i32>,
    /// Waypoint latitude in 1e-7 degree units.
    pub wpt_lat: Option<i64>,
    /// Waypoint longitude in 1e-7 degree units.
    pub wpt_lon: Option<i64>,
    pub turn_dir: Option<String>,
    pub nav_id: Option<i32>,
    pub nav_bear: Option<String>,
    pub nav_dist: Option<String>,
    pub course: Option<String>,
    pub distance: Option<String>,
    pub alt: Option<String>,
    /// Vertical-navigation slope in degrees, as decimal text.
    pub vnav: Option<String>,
    pub center_id: Option<i32>,
}

#[derive(Debug, Clone)]
pub struct TerminalLegEx {
    pub id: i32,
    pub is_fly_over: Option<bool>,
    /// Speed limit, already truncated to a whole number of knots.
    pub speed_limit: Option<i32>,
    pub speed_limit_description: Option<String>,
}

#[derive(Debug, Clone)]
pub struct Waypoint {
    pub id: i32,
    pub ident: String,
    /// Latitude in 1e-7 degree units.
    pub latitude: i64,
    /// Longitude in 1e-7 degree units.
    pub longitude: i64,
}

#[derive(Debug, Clone)]
pub struct Navaid {
    pub id: i32,
    pub ident: String,
    /// Latitude in 1e-7 degree units.
    pub latitude: i64,
    /// Longitude in 1e-7 degree units.
    pub longitude: i64,
}

/// One denormalized leg record, as produced by the merge engine.
#[derive(Debug, Clone)]
pub struct MergedDataRow {
    pub terminal_id: i32,
    pub icao: String,
    pub rwy: Option<String>,
    pub terminal: String,
    pub type_field: Option<String>,
    pub transition: Option<String>,
    pub leg: Option<String>,
    pub turn_direction: Option<String>,
    pub name: Option<String>,
    /// Latitude in 1e-7 degree units.
    pub latitude: Option<i64>,
    /// Longitude in 1e-7 degree units.
    pub longitude: Option<i64>,
    pub frequency: Option<String>,
    pub nav_bear: Option<String>,
    pub nav_dist: Option<String>,
    pub heading: Option<String>,
    pub dist: Option<String>,
    pub cross_this_point: Option<String>,
    pub altitude: Option<String>,
    pub map: Option<i32>,
    /// Vertical-navigation slope in degrees, as decimal text.
    pub slope: Option<String>,
    pub speed: Option<String>,
    /// Center latitude in 1e-7 degree units.
    pub center_lat: Option<i64>,
    /// Center longitude in 1e-7 degree units.
    pub center_lon: Option<i64>,
    pub wpt_id: Option<i32>,
    pub nav_id: Option<i32>,
    pub center_id: Option<i32>,
}

impl MergedDataRow {
    pub fn get_wpt_id(&self) -> (r: Option<i32>)
        ensures
            r == self.wpt_id,
    {
        self.wpt_id
    }

    pub fn get_nav_id(&self) -> (r: Option<i32>)
        ensures
            r == self.nav_id,
    {
        self.nav_id
    }

    pub fn get_center_id(&self) -> (r: Option<i32>)
        ensures
            r == self.center_id,
    {
        self.center_id
    }
}

/// A record of the procedure list: one line of a file's `[list]` section
/// to be, or an entry of the `Terminals` table feeding it.
#[derive(Debug, Clone)]
pub struct TerminalRecord {
    /// Procedure code: one of "1", "2", "3", "6", "A".
    pub proc: String,
    pub icao: String,
    pub name: String,
    pub rwy: Option<String>,
}

/// One record of the stream the leg emitter walks.
#[derive(Debug, Clone)]
pub struct Row {
    pub icao: String,
    pub type_field: String,
    pub transition: String,
    pub terminal: String,
    pub rwy: String,
    /// The remaining columns that a detail block prints, in emission order.
    pub extras: Vec<(String, String)>,
}

pub fn clone_opt_string(o: &Option<String>) -> (r: Option<String>)
    ensures
        r == *o,
{
    match o {
        Option::None => Option::None,
        Option::Some(s) => Option::Some(s.clone()),
    }
}

impl MergedDataRow {
    /// A field-for-field copy, with the copy's value known to be equal.
    pub fn duplicate(&self) -> (r: MergedDataRow)
        ensures
            r == *self,
    {
        MergedDataRow {
            terminal_id: self.terminal_id,
            icao: self.icao.clone(),
            rwy: clone_opt_string(&self.rwy),
            terminal: self.terminal.clone(),
            type_field: clone_opt_string(&self.type_field),
            transition: clone_opt_string(&self.transition),
            leg: clone_opt_string(&self.leg),
            turn_direction: clone_opt_string(&self.turn_direction),
            name: clone_opt_string(&self.name),
            latitude: self.latitude,
            longitude: self.longitude,
            frequency: clone_opt_string(&self.frequency),
            nav_bear: clone_opt_string(&self.nav_bear),
            nav_dist: clone_opt_string(&self.nav_dist),
            heading: clone_opt_string(&self.heading),
            dist: clone_opt_string(&self.dist),
            cross_this_point: clone_opt_string(&self.cross_this_point),
            altitude: clone_opt_string(&self.altitude),
            map: self.map,
            slope: clone_opt_string(&self.slope),
            speed: clone_opt_string(&self.speed),
            center_lat: self.center_lat,
            center_lon: self.center_lon,
            wpt_id: self.wpt_id,
            nav_id: self.nav_id,
            center_id: self.center_id,
        }
    }
}

impl TerminalRecord {
    /// A field-for-field copy, with the copy's value known to be equal.
    pub fn duplicate(&self) -> (r: TerminalRecord)
        ensures
            r == *self,
    {
        TerminalRecord {
            proc: self.proc.clone(),
            icao: self.icao.clone(),
            name: self.name.clone(),
            rwy: clone_opt_string(&self.rwy),
        }
    }
}

} // verus!

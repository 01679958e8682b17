# crowd

A crowd simulator with a localisation service, split in two:

- `src/` is the verified library (Verus). It holds the decisions the
  simulator takes: which members carry the phone application
  (`crowd::spawn_members`), who reports whom (`crowd::report_sightings`),
  what overlaying two observations yields (`observation::Observation::overlays`),
  how the cloud service merges, discards and drops reports
  (`cloud::cloud_step`, `cloud::remove_expired`, `cloud::forget_estimates`),
  and when the crowd's random fluctuation fires (`fluctuation::FluctuationTimer`).
  Geometry is a type parameter of the observations, so none of this depends
  on floating point.
- `app/` is the program: the floating-point motion model and disc geometry,
  random spawning, drawing with `three-d`, and the three experiments
  (`basic`, `wave`, `localize`), chosen by the first argument.
- `tests/` runs the library on concrete values.

use rusttimeanddatedotcomparser::parse_timeanddate_dot_com::{city_utc_offset, UtcInstant};
use rusttimeanddatedotcomparser::time_and_date_data::DayOfWeek;

fn offset(day: &str, hour: i32, minute: i32, utc: &UtcInstant) -> String {
    city_utc_offset(&(DayOfWeek::from(day), hour, minute), utc).to_display_string()
}

#[test]
fn city_utc_offset_test() {
    //UTC date = 2020-01-03 23:30 +00:00, a Friday...
    let mut utc = UtcInstant { weekday: DayOfWeek::Fri, hour: 23, minute: 30 };

    assert_eq!(offset("Sun", 12, 30, &utc), String::from("+13:00"));
    assert_eq!(offset("Sun", 11, 30, &utc), String::from("+12:00"));
    assert_eq!(offset("Fri", 11, 30, &utc), String::from("-12:00"));
    assert_eq!(offset("Sun", 1, 30, &utc), String::from("+02:00"));
    assert_eq!(offset("Sun", 1, 45, &utc), String::from("+02:15"));
    assert_eq!(offset("Sun", 2, 15, &utc), String::from("+02:45"));
    assert_eq!(offset("Fri", 22, 45, &utc), String::from("-00:45"));
    assert_eq!(offset("Fri", 22, 30, &utc), String::from("-01:00"));
    assert_eq!(offset("Fri", 23, 15, &utc), String::from("-00:15"));
    assert_eq!(offset("Fri", 22, 15, &utc), String::from("-01:15"));
    assert_eq!(offset("Fri", 22, 46, &utc), String::from("-00:44"));
    assert_eq!(offset("Fri", 23, 15, &utc), String::from("-00:15"));
    assert_eq!(offset("Fri", 23, 45, &utc), String::from("+00:15"));
    assert_eq!(offset("Sat", 1, 15, &utc), String::from("+01:45"));
    assert_eq!(offset("Sun", 0, 37, &utc), String::from("+01:07"));

    utc = UtcInstant { weekday: DayOfWeek::Fri, hour: 2, minute: 30 };

    assert_eq!(offset("Thu", 23, 37, &utc), String::from("-02:53"));
    assert_eq!(offset("Thu", 20, 28, &utc), String::from("-06:02"));
    assert_eq!(offset("Thu", 22, 28, &utc), String::from("-04:02"));

    utc = UtcInstant { weekday: DayOfWeek::Fri, hour: 0, minute: 30 };

    assert_eq!(offset("Thu", 23, 59, &utc), String::from("-00:31"));
    assert_eq!(offset("Thu", 23, 28, &utc), String::from("-01:02"));
}
